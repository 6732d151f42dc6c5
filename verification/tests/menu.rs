use time_report::watch::menu::{Menu, MenuItem};

#[derive(Copy, Clone, Debug, PartialEq)]
enum MenuValue {
    Append,
    Reload,
    Quit,
}

#[test]
fn menu_test_menu_item() {
    let item = MenuItem::new(
        MenuValue::Append,
        "Append",
        "Add current date to the file.",
        'A',
    );
    assert_eq!(item.display(), "A:Append");
    assert_eq!(item.description(), "Add current date to the file.");
    assert_eq!(item.key(), 'A');
}

#[test]
fn menu_test_menu() {
    let menu_items = vec![
        MenuItem::new(
            MenuValue::Append,
            "Append",
            "Add current date to the file.",
            'a',
        ),
        MenuItem::new(MenuValue::Reload, "Reload", "Force reload of file.", 'r'),
        MenuItem::new(MenuValue::Quit, "Quit", "Quit the program.", 'Q'),
    ];
    let mut menu = Menu::new(menu_items).unwrap();
    let descriptions = [
        "Add current date to the file.",
        "Force reload of file.",
        "Quit the program.",
    ];
    let values = [MenuValue::Append, MenuValue::Reload, MenuValue::Quit];
    for i in 0..3 {
        assert_eq!(descriptions[i], menu.description());
        assert_eq!(values[i], menu.value());
        menu = menu.right();
    }
    assert_eq!(values[0], menu.value());
    for i in (0..3).rev() {
        menu = menu.left();
        assert_eq!(values[i], menu.value());
    }

    menu = menu.left();
    assert_eq!(MenuValue::Quit, menu.value());
    menu = menu.right();
    assert_eq!(MenuValue::Append, menu.value());

    assert!(menu.select('x').is_none());
    assert_eq!(
        Some(MenuValue::Reload),
        menu.select('r').map(|x| x.value())
    );
}

use crossterm::style::Stylize;
use time_report::menu;

#[test]
fn test_menu_item_renders() {
    let item = menu::MenuItem::new(MenuValue::Append, "Append", "Add current date to the file.");
    assert_eq!(item.name(), "Append");
    assert_eq!(item.description(), "Add current date to the file.");
    assert_eq!(item.key(), 'a');
    assert_eq!(item.render_text(true), "(A)ppend ");
    assert_eq!(item.render_text(false), " (A)ppend ");
    assert_eq!(item.render(true, true), "(A)ppend ".dark_red().to_string());
    assert_eq!(item.render(false, false), " (A)ppend ".dark_blue().to_string());
}

#[test]
fn test_menu_line() {
    let menu_items = vec![
        menu::MenuItem::new(MenuValue::Append, "Append", "Add current date to the file."),
        menu::MenuItem::new(MenuValue::Reload, "Reload", "Force reload of file."),
        menu::MenuItem::new(MenuValue::Quit, "Quit", "Quit the program."),
    ];
    let mut m = menu::Menu::new(menu_items).unwrap();
    assert_eq!("(A)ppend      (R)eload      (Q)uit ", m.render_text());
    assert_eq!(
        m.render(),
        format!(
            "{}    {}    {}",
            "(A)ppend ".dark_red(),
            " (R)eload ".dark_blue(),
            " (Q)uit ".dark_blue()
        )
    );
    m.right();
    assert_eq!(MenuValue::Reload, m.value());
    assert_eq!("Force reload of file.", m.description());
    m.left();
    m.left();
    assert_eq!(MenuValue::Quit, m.value());
    assert_eq!(Some(MenuValue::Append), m.select('a'));
    assert_eq!(None, m.select('x'));
}
