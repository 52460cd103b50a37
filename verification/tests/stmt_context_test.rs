use lazy_init_plugin::stmt_context::Flags;

#[test]
fn stmt_context_a() {
    let mut f = Flags::default();
    f.add(Flags::returns_flag());
    assert!(f.has(Flags::returns_flag()));
}

#[test]
fn b() {
    let mut f = Flags::default();
    f.add(Flags::returns_flag());
    f.rem(Flags::throws());
    assert!(f.has(Flags::returns_flag()));
    assert!(!f.has(Flags::throws()));
}

#[test]
fn c() {
    let mut f = Flags::default();
    f.add(Flags::has_return_like());
    assert!(f.has(Flags::returns_flag()));
    assert!(f.has(Flags::breaks()));
    assert!(f.has(Flags::continues()));
    assert!(f.has(Flags::throws()));
    assert!(f.has(Flags::has_return_like()));
    assert!(f.has(
        Flags::returns_flag()
            .union(Flags::breaks())
            .union(Flags::continues())
            .union(Flags::throws())
    ));
}

#[test]
fn d() {
    let mut f = Flags::default();
    f.add(Flags::returns_flag());
    assert!(f.has(Flags::returns_flag()));
    assert!(!f.has(Flags::has_return_like()));
    assert!(f.has_any(Flags::has_return_like()));
}

#[test]
fn e() {
    let mut f = Flags::default();
    let mut g = Flags::default();
    g.add(Flags::falls_through().union(Flags::returns_flag()));
    f.add_from(&g, Some(Flags::falls_through()));
    assert!(g.has(Flags::falls_through().union(Flags::returns_flag())));
    assert!(f.has(Flags::falls_through()));
    assert!(!f.has(Flags::returns_flag()));
}
