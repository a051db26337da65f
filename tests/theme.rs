use bevy_forms::theme::{Color, Theme, ThemeColors};

#[test]
fn missing_theme_falls_back_to_default() {
    let t = Theme::resolve(None);
    assert_eq!(t, Theme::default());
    assert_eq!(t.colors.button, Color::rgba(255, 255, 255, 255));
    assert_eq!(Color::default(), Color::white());
}

#[test]
fn given_theme_is_used() {
    let custom = Theme {
        colors: ThemeColors {
            primary: Color::rgba(26, 26, 26, 255),
            button: Color::rgba(38, 38, 38, 255),
            button_hovered: Color::rgba(64, 64, 64, 255),
            button_clicked: Color::rgba(89, 166, 89, 255),
        },
    };
    assert_eq!(Theme::resolve(Some(custom)), custom);
}
