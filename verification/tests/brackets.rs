use practicas::brackets::{next_token, parentesis_equilibrados, Pila};

#[test]
fn test_parentesis_equilibrados_true() {
    assert_eq!(parentesis_equilibrados(" ( ) "), true);
    assert_eq!(parentesis_equilibrados(" ( ) { } "), true);
    assert_eq!(parentesis_equilibrados(" { ( ) } "), true);
}

#[test]
fn test_parentesis_equilibrados_false() {
    assert_eq!(parentesis_equilibrados(" } ( "), false);
    assert_eq!(parentesis_equilibrados(" ( ( { ( ) } { ) } ) ) "), false);
    assert_eq!(parentesis_equilibrados(" } () { "), false);
}

#[test]
fn empty_and_blank_texts_are_balanced() {
    assert!(parentesis_equilibrados(""));
    assert!(parentesis_equilibrados("   \t\n "));
}

#[test]
fn kinds_are_checked_separately() {
    // Interleaving of the two kinds is not checked.
    assert!(parentesis_equilibrados("( { ) }"));
    assert!(!parentesis_equilibrados("( { )"));
    assert!(!parentesis_equilibrados("{ ( }"));
}

#[test]
fn other_characters_are_ignored() {
    assert!(parentesis_equilibrados("f(x) { return [a, b]; }"));
    assert!(!parentesis_equilibrados("f(x))"));
}

#[test]
fn concatenation_of_balanced_texts_is_balanced() {
    let a = "( ) { ( ) }";
    let b = "{ } ( ( ) )";
    assert!(parentesis_equilibrados(a));
    assert!(parentesis_equilibrados(b));
    let ab = format!("{}{}", a, b);
    assert!(parentesis_equilibrados(&ab));
    let wrapped = format!("({})", a);
    assert!(parentesis_equilibrados(&wrapped));
    let braced = format!("{{{}}}", b);
    assert!(parentesis_equilibrados(&braced));
}

#[test]
fn next_token_skips_whitespace() {
    let s = "  a b\u{3000}c  ";
    let mut pos = 0;
    assert_eq!(next_token(s, &mut pos), Some('a'));
    assert_eq!(pos, 3);
    assert_eq!(next_token(s, &mut pos), Some('b'));
    assert_eq!(pos, 5);
    assert_eq!(next_token(s, &mut pos), Some('c'));
    assert_eq!(pos, 7);
    assert_eq!(next_token(s, &mut pos), None);
    assert_eq!(pos, 9);
    assert_eq!(next_token(s, &mut pos), None);
    assert_eq!(pos, 9);
}

#[test]
fn next_token_past_the_end() {
    let mut pos = 10;
    assert_eq!(next_token("abc", &mut pos), None);
    assert_eq!(pos, 10);
}

#[test]
fn stack_is_last_in_first_out() {
    let mut p: Pila<char> = Pila::new();
    assert!(p.vacia());
    p.push('(');
    p.push('{');
    assert!(!p.vacia());
    assert_eq!(p.pop(), Some('{'));
    assert_eq!(p.pop(), Some('('));
    assert_eq!(p.pop(), None);
    assert!(p.vacia());
}

#[test]
fn only_the_brackets_matter() {
    for s in ["f(x) { y[0] = (a + b); }", "(}", "{ ( ) } )", "  hola  ", "(a{b)c}"] {
        let only: String = s.chars().filter(|c| "(){}".contains(*c)).collect();
        assert_eq!(parentesis_equilibrados(s), parentesis_equilibrados(&only));
    }
}
