use styled_lines::screen::Screens;

#[test]
fn screens_compare_and_copy() {
    assert_eq!(Screens::Editor, Screens::Editor);
    assert_ne!(Screens::Editor, Screens::Dashboard);
    let s = Screens::Dashboard;
    let t = s;
    assert_eq!(s, t);
}
