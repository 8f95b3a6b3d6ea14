use settlers::card::{Gamble, Occupant, Resource};
use settlers::interface::ButtonState;
use settlers::game::{Expansions, Settlers};

pub enum Res {
    Wood { n: u8 },
    Brick(u8),
}

fn match_test(re: &mut Res) {
    match re {
        Res::Wood { n } => {
            *n -= 1;
        }
        Res::Brick(val) => {
            *val -= 1;
        }
    }
}

#[test]
fn edit_enums() {
    let mut wood = Res::Wood { n: 10 };
    let mut brick = Res::Brick(10);
    match_test(&mut wood);
    match_test(&mut brick);
    if let Res::Wood { n } = wood {
        assert_eq!(n, 9);
    }
    if let Res::Brick(n) = brick {
        assert_eq!(n, 9)
    }
}

#[test]
fn clone_with_value_keeps_the_kind() {
    assert_eq!(Resource::Wood(4).clone_with_value(6), Resource::Wood(6));
    assert_eq!(Resource::Sheep(1).clone_with_value(11), Resource::Sheep(11));
    assert_eq!(Resource::Desert(Some(3)).clone_with_value(6), Resource::Desert(None));
    assert_eq!(Resource::Ore(2).chance(), Some(2));
    assert_eq!(Resource::Desert(None).chance(), None);
    assert_eq!(Resource::Desert(Some(2)).units(), 2);
    assert_eq!(Resource::Brick(3).with_units(1), Resource::Brick(1));
    assert_eq!(Resource::Desert(None).with_units(1), Resource::Desert(Some(1)));
    let _ = Gamble::Knight(1);
    let _ = Occupant::Merchant;
}

#[test]
fn button_states() {
    assert!(ButtonState::Clicked.is_clicked());
    assert!(!ButtonState::Clicked.is_held());
    assert!(ButtonState::Held.is_held());
    assert_eq!(ButtonState::Clicked.refreshed(), ButtonState::Held);
    assert_eq!(Settlers::new().scene, Expansions::Base);
}

#[test]
fn vertex_color() {
    let mut s = settlers::building::Structure::new(settlers::building::Building::Empty, (0, 0, 0));
    s.owner = 3;
    assert_eq!(s.meta(), 48);
}
