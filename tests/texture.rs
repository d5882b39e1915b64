use raytracer::texture::{CheckerTexture, SolidColor, Texture};

fn solid(i: usize) -> Box<Texture> {
    Box::new(Texture::Solid(SolidColor { color: i }))
}

#[test]
fn checker_picks_by_sign() {
    let c = CheckerTexture { odd: solid(1), even: solid(2) };
    assert_eq!(c.value(true), 1);
    assert_eq!(c.value(false), 2);
}

#[test]
fn nested_checker_sees_same_sign() {
    let inner = Texture::Checker(CheckerTexture { odd: solid(3), even: solid(4) });
    let outer = Texture::Checker(CheckerTexture { odd: Box::new(inner), even: solid(5) });
    assert_eq!(outer.value(true), 3);
    assert_eq!(outer.value(false), 5);
    assert_eq!(Texture::Solid(SolidColor { color: 9 }).value(true), 9);
}
