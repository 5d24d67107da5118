use water::{run_capturing, run_capturing_with_files};

#[test]
fn integer_addition() {
    assert_eq!(run_capturing("println(1 + 2)"), "3\n");
}

#[test]
fn integer_subtraction() {
    assert_eq!(run_capturing("println(5 - 3)"), "2\n");
}

#[test]
fn integer_multiplication() {
    assert_eq!(run_capturing("println(3 * 4)"), "12\n");
}

#[test]
fn integer_division() {
    assert_eq!(run_capturing("println(10 / 2)"), "5\n");
}

#[test]
fn integer_modulo() {
    assert_eq!(run_capturing("println(7 % 3)"), "1\n");
}

#[test]
fn greater_than() {
    assert_eq!(run_capturing("println(5 > 3)"), "true\n");
}

#[test]
fn less_than_or_equal() {
    assert_eq!(run_capturing("println(3 <= 3)"), "true\n");
}

#[test]
fn not_equal() {
    assert_eq!(run_capturing("println(1 != 2)"), "true\n");
}

#[test]
fn variable_assignment() {
    assert_eq!(run_capturing("x = 42\nprintln(x)"), "42\n");
}

#[test]
fn variable_reassignment() {
    assert_eq!(run_capturing("x = 1\nx = 2\nprintln(x)"), "2\n");
}

#[test]
fn plus_eq() {
    assert_eq!(run_capturing("x = 10\nx += 5\nprintln(x)"), "15\n");
}

#[test]
fn minus_eq() {
    assert_eq!(run_capturing("x = 10\nx -= 3\nprintln(x)"), "7\n");
}

#[test]
fn star_eq() {
    assert_eq!(run_capturing("x = 4\nx *= 3\nprintln(x)"), "12\n");
}

#[test]
fn slash_eq() {
    assert_eq!(run_capturing("x = 12\nx /= 4\nprintln(x)"), "3\n");
}

#[test]
fn percent_eq() {
    assert_eq!(run_capturing("x = 7\nx %= 3\nprintln(x)"), "1\n");
}

#[test]
fn print_string() {
    assert_eq!(run_capturing(r#"println("hello")"#), "hello\n");
}

#[test]
fn if_true_branch() {
    assert_eq!(run_capturing("x = 1\nif x == 1\n    println(x)\n"), "1\n");
}

#[test]
fn if_else_true() {
    assert_eq!(run_capturing("x = 1\nif x == 1\n    println(1)\nelse\n    println(0)\n"), "1\n");
}

#[test]
fn if_else_false() {
    assert_eq!(run_capturing("x = 0\nif x == 1\n    println(1)\nelse\n    println(0)\n"), "0\n");
}

#[test]
fn while_counts_up() {
    assert_eq!(run_capturing("i = 0\nwhile i < 3\n    println(i)\n    i = i + 1\n"), "0\n1\n2\n");
}

#[test]
fn while_skipped_when_false() {
    assert_eq!(run_capturing("i = 5\nwhile i < 3\n    println(i)\n"), "");
}

#[test]
fn nested_loops_break_inner_only() {
    assert_eq!(run_capturing("i = 0\nwhile i < 3\n    j = 0\n    while j < 3\n        if j == 1\n            break\n        println(j)\n        j = j + 1\n    i = i + 1\nprintln(i)\n"), "0\n0\n0\n3\n");
}

#[test]
fn break_exits_loop() {
    assert_eq!(run_capturing("i = 0\nwhile i < 5\n    if i == 2\n        break\n    println(i)\n    i = i + 1\n"), "0\n1\n");
}

#[test]
fn continue_skips_iteration() {
    assert_eq!(run_capturing("i = 0\nwhile i < 4\n    i = i + 1\n    if i == 2\n        continue\n    println(i)\n"), "1\n3\n4\n");
}

#[test]
fn power_basic() {
    assert_eq!(run_capturing("println(2 ** 10)"), "1024\n");
}

#[test]
fn power_zero_exponent() {
    assert_eq!(run_capturing("println(5 ** 0)"), "1\n");
}

#[test]
fn power_right_associative() {
    assert_eq!(run_capturing("println(2 ** 3 ** 2)"), "512\n");
}

#[test]
fn bool_literal_true() {
    assert_eq!(run_capturing("println(true)"), "true\n");
}

#[test]
fn bool_literal_false() {
    assert_eq!(run_capturing("println(false)"), "false\n");
}

#[test]
fn not_true() {
    assert_eq!(run_capturing("println(!true)"), "false\n");
}

#[test]
fn not_false() {
    assert_eq!(run_capturing("println(!false)"), "true\n");
}

#[test]
fn not_keyword() {
    assert_eq!(run_capturing("println(not true)"), "false\n");
}

#[test]
fn unary_negation() {
    assert_eq!(run_capturing("println(-5)"), "-5\n");
}

#[test]
fn unary_negation_variable() {
    assert_eq!(run_capturing("x = 3\nprintln(-x)"), "-3\n");
}

#[test]
fn and_true_true() {
    assert_eq!(run_capturing("println(true and true)"), "true\n");
}

#[test]
fn and_true_false() {
    assert_eq!(run_capturing("println(true and false)"), "false\n");
}

#[test]
fn and_false_true() {
    assert_eq!(run_capturing("println(false and true)"), "false\n");
}

#[test]
fn and_short_circuits() {
    assert_eq!(run_capturing("x = 0\nfalse and (x = 1)\nprintln(x)\n"), "0\n");
}

#[test]
fn or_false_false() {
    assert_eq!(run_capturing("println(false or false)"), "false\n");
}

#[test]
fn or_false_true() {
    assert_eq!(run_capturing("println(false or true)"), "true\n");
}

#[test]
fn or_true_false() {
    assert_eq!(run_capturing("println(true or false)"), "true\n");
}

#[test]
fn or_short_circuits() {
    assert_eq!(run_capturing("x = 0\ntrue or (x = 1)\nprintln(x)\n"), "0\n");
}

#[test]
fn array_read_write() {
    assert_eq!(run_capturing("a = [10, 20, 30]\nprintln(a[0])\nprintln(a[2])\n"), "10\n30\n");
}

#[test]
fn array_index_assignment() {
    assert_eq!(run_capturing("a = [1, 2, 3]\na[1] = 99\nprintln(a[0])\nprintln(a[1])\nprintln(a[2])\n"), "1\n99\n3\n");
}

#[test]
fn array_index_assignment_variable_index() {
    assert_eq!(run_capturing("a = [0, 0, 0]\ni = 2\na[i] = 42\nprintln(a[i])\n"), "42\n");
}

#[test]
fn array_multiline_literal() {
    assert_eq!(run_capturing("a = [1, 2,\n     3, 4]\nprintln(a[0])\nprintln(a[2])\n"), "1\n3\n");
}

#[test]
fn array_2d_read_write() {
    assert_eq!(run_capturing("grid = [[1, 2], [3, 4]]\nprintln(grid[0][1])\ngrid[1][0] = 99\nprintln(grid[1][0])\nprintln(grid[1][1])\n"), "2\n99\n4\n");
}

#[test]
fn array_2d_multiline() {
    assert_eq!(run_capturing("grid = [\n    [1, 2, 3],\n    [4, 5, 6]\n]\nprintln(grid[0][2])\nprintln(grid[1][1])\n"), "3\n5\n");
}

#[test]
fn array_3d_read_write() {
    assert_eq!(run_capturing("cube = [[[1, 2], [3, 4]], [[5, 6], [7, 8]]]\nprintln(cube[0][1][0])\ncube[1][0][1] = 99\nprintln(cube[1][0][1])\n"), "3\n99\n");
}

#[test]
fn function_no_args() {
    assert_eq!(run_capturing("greet = () => 42\nprintln(greet())\n"), "42\n");
}

#[test]
fn function_two_args() {
    assert_eq!(run_capturing("add = (a, b) => a + b\nprintln(add(3, 4))\n"), "7\n");
}

#[test]
fn function_three_args() {
    assert_eq!(run_capturing("sum3 = (a, b, c) => a + b + c\nprintln(sum3(1, 2, 3))\n"), "6\n");
}

#[test]
fn function_calls_function() {
    assert_eq!(run_capturing("double = (x) => x * 2\nquad = (x) => double(double(x))\nprintln(quad(3))\n"), "12\n");
}

#[test]
fn recursive_function() {
    assert_eq!(run_capturing("fact = (n) =>\n    if n == 0\n        return 1\n    return n * fact(n - 1)\nprintln(fact(5))\n"), "120\n");
}

#[test]
fn import_from_single() {
    assert_eq!(
        run_capturing_with_files("from math import add\nprintln(add(3, 4))", &[("math.water", "add = (a, b) => a + b")]),
        "7\n"
    );
}

#[test]
fn import_from_alias() {
    assert_eq!(
        run_capturing_with_files("from math import add as plus\nprintln(plus(10, 5))", &[("math.water", "add = (a, b) => a + b")]),
        "15\n"
    );
}

#[test]
fn import_from_multiple() {
    assert_eq!(
        run_capturing_with_files("from math import add, mul\nprintln(add(2, 3))\nprintln(mul(2, 3))\n", &[("math.water", "add = (a, b) => a + b\nmul = (a, b) => a * b\n")]),
        "5\n6\n"
    );
}

#[test]
fn import_module_dot_access() {
    assert_eq!(
        run_capturing_with_files("import math\nprintln(math.square(5))", &[("math.water", "square = (x) => x * x")]),
        "25\n"
    );
}

#[test]
fn import_module_with_alias() {
    assert_eq!(
        run_capturing_with_files("import math as m\nprintln(m.double(6))", &[("math.water", "double = (x) => x * 2")]),
        "12\n"
    );
}

#[test]
fn import_transitive() {
    assert_eq!(
        run_capturing_with_files("from utils import double_inc\nprintln(double_inc(5))", &[("base.water", "inc = (x) => x + 1"), ("utils.water", "from base import inc\ndouble_inc = (x) => inc(inc(x))")]),
        "7\n"
    );
}
