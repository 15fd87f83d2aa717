use space_travel::shader::{same_text, ShaderKind};

#[test]
fn every_registered_name_selects_its_shader() {
    assert_eq!(ShaderKind::from_name("Voidheart"), ShaderKind::Umbraleth);
    assert_eq!(ShaderKind::from_name("Zephyr"), ShaderKind::Zephyr);
    assert_eq!(ShaderKind::from_name("Pyrion"), ShaderKind::Pyrion);
    assert_eq!(ShaderKind::from_name("Glacia"), ShaderKind::Glacia);
    assert_eq!(ShaderKind::from_name("Umbraleth"), ShaderKind::Umbraleth);
    assert_eq!(ShaderKind::from_name("Verdis"), ShaderKind::Verdis);
    assert_eq!(ShaderKind::from_name("Crystallos"), ShaderKind::Earth);
    assert_eq!(ShaderKind::from_name("Vulcanus"), ShaderKind::Mars);
    assert_eq!(ShaderKind::from_name("Lunaris"), ShaderKind::Mercury);
    assert_eq!(ShaderKind::from_name("Stellaris"), ShaderKind::Sun);
    assert_eq!(ShaderKind::from_name("Nave"), ShaderKind::Nave);
}

#[test]
fn unknown_names_fall_back_to_the_default_shader() {
    assert_eq!(ShaderKind::from_name(""), ShaderKind::Default);
    assert_eq!(ShaderKind::from_name("Earth"), ShaderKind::Default);
    assert_eq!(ShaderKind::from_name("Uranus"), ShaderKind::Default);
    assert_eq!(ShaderKind::from_name("zephyr"), ShaderKind::Default);
    assert_eq!(ShaderKind::from_name("Zephyr "), ShaderKind::Default);
    assert_eq!(ShaderKind::from_name("Nav"), ShaderKind::Default);
    assert_eq!(ShaderKind::from_name("Navé"), ShaderKind::Default);
}

#[test]
fn selection_is_repeatable() {
    for name in ["Voidheart", "Nave", "nothing"] {
        assert_eq!(ShaderKind::from_name(name), ShaderKind::from_name(name));
    }
}

#[test]
fn same_text_compares_characters() {
    assert!(same_text("", ""));
    assert!(same_text("Glacia", "Glacia"));
    assert!(!same_text("Glacia", "Glacib"));
    assert!(!same_text("Glacia", "Glaci"));
    assert!(!same_text("é", "e"));
    assert!(same_text("órbita", "órbita"));
}
