use tilepool::Pos;
use tilepool::Positionable;

#[test]
fn test_pos() {
    let pos = Pos::new(1, 2);

    assert_eq!(Pos::dot(&pos, &pos), 5, "`Pos::dot` failed.");
    assert_eq!(pos.mag2(), Pos::dot(&pos, &pos), "`Pos::mag2` failed.");
    assert_eq!(pos.dist2_from(&Pos::new(1, 1)), 1, "`Pos::dist2_from` failed.");
}

#[test]
fn test_dist2_symmetry_and_zero() {
    let a = Pos::new(-3, 7);
    let b = Pos::new(4, -2);
    assert_eq!(a.dist2_from(&b), b.dist2_from(&a));
    assert_eq!(a.dist2_from(&a), 0);
    assert_eq!(a.dist2_from(&b), 49 + 81);
}

#[test]
fn test_dist2_extreme_coordinates() {
    let a = Pos::new(i32::MIN, i32::MIN);
    let b = Pos::new(i32::MAX, i32::MAX);
    let d = (i32::MAX as i128 - i32::MIN as i128) as u128;
    assert_eq!(a.dist2_from(&b), d * d * 2);
}

struct Marker {
    pos: Pos,
}

impl Positionable for Marker {
    fn pos_of(&self) -> Pos {
        self.pos
    }

    fn get_position(&self) -> &Pos {
        &self.pos
    }

    fn set_position(self, pos: &Pos) -> Self {
        Marker { pos: *pos }
    }
}

#[test]
fn test_positionable_translate() {
    let marker = Marker { pos: Pos::new(2, 3) };
    let marker = marker.translate(Pos::new(1, -1));
    assert_eq!(*marker.get_position(), Pos::new(3, 2));
}
