use bisection_key::{BalancedKey, KeyError, LexiconKey, NumberChange};

fn text(k: &BalancedKey) -> String {
    k.to_text()
}

fn lex_text(k: &LexiconKey) -> String {
    k.to_text()
}

#[test]
fn text_round_trip() {
    for s in ["", "a", "aT", "+-/09AZaz", "zzzz", "T+T+"] {
        assert_eq!(text(&BalancedKey::new(s).unwrap()), s);
        assert_eq!(lex_text(&LexiconKey::new(s).unwrap()), s);
    }
}

#[test]
fn rendering_maps_digits_to_symbols() {
    let k = BalancedKey::new("Ab").unwrap();
    assert_eq!(k.to_text(), "Ab");
    assert_eq!(k.bisect_end().unwrap().to_text(), "C");
}

#[test]
fn invalid_symbol_is_reported() {
    assert_eq!(BalancedKey::new("ab_c").unwrap_err(), KeyError::InvalidSymbol('_'));
    assert_eq!(LexiconKey::new("a b").unwrap_err(), KeyError::InvalidSymbol(' '));
    assert_eq!(BalancedKey::new("é").unwrap_err(), KeyError::InvalidSymbol('é'));
}

#[test]
fn balanced_midpoint_suffix_is_equal() {
    assert_eq!(BalancedKey::new("a").unwrap(), BalancedKey::new("aT").unwrap());
    assert_eq!(BalancedKey::new("").unwrap(), BalancedKey::new("TTT").unwrap());
    assert!(BalancedKey::new("aS").unwrap() < BalancedKey::new("a").unwrap());
}

#[test]
fn lexicon_examples() {
    assert_ne!(LexiconKey::new("a").unwrap(), LexiconKey::new("aT").unwrap());
    assert!(LexiconKey::new("a").unwrap() < LexiconKey::new("aT").unwrap());
    assert!(LexiconKey::new("azzzzzz").unwrap() < LexiconKey::new("b").unwrap());
    assert!(LexiconKey::new("a").unwrap() < LexiconKey::new("a+").unwrap());
}

#[test]
fn bisect_exact_values() {
    let a = BalancedKey::new("a").unwrap();
    let b = BalancedKey::new("b").unwrap();
    assert_eq!(text(&a.bisect(&b).unwrap()), "aV");
    let av = BalancedKey::new("aV").unwrap();
    assert_eq!(text(&av.bisect(&b).unwrap()), "b-");
    // wide gap at the first difference
    let x = BalancedKey::new("A").unwrap();
    let y = BalancedKey::new("C").unwrap();
    assert_eq!(text(&x.bisect(&y).unwrap()), "B");
}

#[test]
fn bisect_averages_across_the_carry() {
    let a = BalancedKey::new("ab").unwrap();
    let b = BalancedKey::new("b7").unwrap();
    let m = a.bisect(&b).unwrap();
    assert_eq!(text(&m), "as");
    assert!(a < m && m < b);
    let la = LexiconKey::new("ab").unwrap();
    let lb = LexiconKey::new("b7").unwrap();
    let lm = la.bisect(&lb).unwrap();
    assert_eq!(lex_text(&lm), "as");
}

#[test]
fn bisect_in_either_order() {
    let a = BalancedKey::new("a").unwrap();
    let b = BalancedKey::new("b").unwrap();
    let m = b.bisect(&a).unwrap();
    assert!(a < m && m < b);
    let la = LexiconKey::new("a").unwrap();
    let lb = LexiconKey::new("a++").unwrap();
    let lm = lb.bisect(&la).unwrap();
    assert_eq!(lex_text(&lm), "a+");
    assert!(la < lm && lm < lb);
}

#[test]
fn bisect_equal_keys_fails() {
    let a = BalancedKey::new("a").unwrap();
    let at = BalancedKey::new("aTT").unwrap();
    assert_eq!(a.bisect(&at).unwrap_err(), KeyError::NoRoomBetweenEqualKeys);
    let la = LexiconKey::new("a").unwrap();
    assert_eq!(la.bisect(&LexiconKey::new("a").unwrap()).unwrap_err(), KeyError::NoRoomBetweenEqualKeys);
    assert_eq!(la.bisect(&LexiconKey::new("a+").unwrap()).unwrap_err(), KeyError::NoRoomBetweenEqualKeys);
}

#[test]
fn bisect_across_top_digits() {
    let a = BalancedKey::new("azz").unwrap();
    let b = BalancedKey::new("b+-").unwrap();
    let m = a.bisect(&b).unwrap();
    assert!(a < m && m < b);
    let la = LexiconKey::new("azz").unwrap();
    let lb = LexiconKey::new("b+-").unwrap();
    let lm = la.bisect(&lb).unwrap();
    assert!(la < lm && lm < lb);
}

#[test]
fn after_values() {
    assert_eq!(text(&BalancedKey::new("a").unwrap().bisect_end().unwrap()), "c");
    assert_eq!(text(&BalancedKey::new("y").unwrap().bisect_end().unwrap()), "z");
    assert_eq!(text(&BalancedKey::new("x").unwrap().bisect_end().unwrap()), "z");
    assert_eq!(text(&BalancedKey::new("z").unwrap().bisect_end().unwrap()), "zV");
    assert_eq!(text(&BalancedKey::default().bisect_end().unwrap()), "V");
    assert_eq!(lex_text(&LexiconKey::new("x").unwrap().bisect_end().unwrap()), "y");
    assert_eq!(lex_text(&LexiconKey::new("yz").unwrap().bisect_end().unwrap()), "z");
    assert_eq!(lex_text(&LexiconKey::new("zz").unwrap().bisect_end().unwrap()), "zzV");
}

#[test]
fn before_values() {
    assert_eq!(text(&BalancedKey::new("c").unwrap().bisect_beginning().unwrap()), "a");
    assert_eq!(text(&BalancedKey::new("-").unwrap().bisect_beginning().unwrap()), "+");
    assert_eq!(text(&BalancedKey::new("+a").unwrap().bisect_beginning().unwrap()), "+Y");
    assert_eq!(text(&BalancedKey::default().bisect_beginning().unwrap()), "R");
    assert_eq!(lex_text(&LexiconKey::new("-").unwrap().bisect_beginning().unwrap()), "+v");
    assert_eq!(lex_text(&LexiconKey::new("/").unwrap().bisect_beginning().unwrap()), "-");
    assert_eq!(lex_text(&LexiconKey::default().bisect_beginning().unwrap()), "R");
}

#[test]
fn before_lowest_fails() {
    assert_eq!(text(&BalancedKey::new("++").unwrap().bisect_beginning().unwrap()), "++R");
    assert_eq!(LexiconKey::new("+").unwrap().bisect_beginning().unwrap_err(), KeyError::CannotDecreaseFurther);
    assert_eq!(LexiconKey::new("").unwrap().bisect_beginning().unwrap_err(), KeyError::CannotDecreaseFurther);
}

#[test]
fn strip_drops_trailing_middle_digits() {
    let k = BalancedKey::new("aTT").unwrap();
    let s = k.strip_last();
    assert_eq!(text(&s), "a");
    assert_eq!(s, k);
    let mut m = BalancedKey::new("TaT").unwrap();
    m.strip_last_mut();
    assert_eq!(text(&m), "Ta");
}

#[test]
fn promote_carries_and_fails() {
    let k = BalancedKey::new("az").unwrap();
    assert_eq!(text(&k.promote_from(2, NumberChange::Increased).unwrap()), "b+");
    let k = BalancedKey::new("b+").unwrap();
    assert_eq!(text(&k.promote_from(2, NumberChange::Decreased).unwrap()), "az");
    let z = LexiconKey::new("zz").unwrap();
    assert_eq!(z.promote_from(2, NumberChange::Increased).unwrap_err(), KeyError::CarryExhausted);
    assert_eq!(z.promote_from(0, NumberChange::Increased).unwrap_err(), KeyError::CarryExhausted);
    assert_eq!(z.promote_from(3, NumberChange::Increased).unwrap_err(), KeyError::IndexOutOfRange);
}

#[test]
fn checked_keeps_the_key() {
    let k = LexiconKey::new("abc").unwrap();
    assert_eq!(lex_text(&k.checked().unwrap()), "abc");
}

#[test]
fn after_and_before_chains_are_monotonic() {
    let mut k = LexiconKey::new("zx").unwrap();
    for _ in 0..200 {
        let next = k.bisect_end().unwrap();
        assert!(k < next);
        k = next;
    }
    let mut k = BalancedKey::new("+/").unwrap();
    for _ in 0..200 {
        let next = k.bisect_beginning().unwrap();
        assert!(next < k);
        k = next;
    }
}

#[test]
fn lexicon_bisect_exact_values() {
    let a = LexiconKey::new("a").unwrap();
    let b = LexiconKey::new("b").unwrap();
    let c = LexiconKey::new("c").unwrap();
    assert_eq!(lex_text(&a.bisect(&b).unwrap()), "a1");
    assert_eq!(lex_text(&a.bisect(&c).unwrap()), "b");
    assert_eq!(lex_text(&c.bisect(&a).unwrap()), "b");
}

#[test]
fn lexicon_bisect_after_lowest_digits() {
    let a = LexiconKey::new("a").unwrap();
    let a2 = LexiconKey::new("a++").unwrap();
    let m = a.bisect(&a2).unwrap();
    assert_eq!(lex_text(&m), "a+");
    assert!(a < m && m < a2);
    let a3 = LexiconKey::new("a+++").unwrap();
    assert_eq!(lex_text(&a3.bisect(&a).unwrap()), "a+");
    let a1 = LexiconKey::new("a+").unwrap();
    assert_eq!(a1.bisect(&a).unwrap_err(), KeyError::NoRoomBetweenEqualKeys);
}

#[test]
fn bisect_result_is_at_most_one_digit_longer() {
    let pairs = [("a", "b"), ("azz", "b+-"), ("ab", "b7"), ("T", "U+"), ("", "z")];
    for (x, y) in pairs {
        let a = BalancedKey::new(x).unwrap();
        let b = BalancedKey::new(y).unwrap();
        let m = text(&a.bisect(&b).unwrap());
        assert!(m.chars().count() <= x.len().max(y.len()) + 1);
        let la = LexiconKey::new(x).unwrap();
        let lb = LexiconKey::new(y).unwrap();
        let lm = lex_text(&la.bisect(&lb).unwrap());
        assert!(lm.chars().count() <= x.len().max(y.len()) + 1);
    }
}
