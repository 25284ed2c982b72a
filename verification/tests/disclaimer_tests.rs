use lib::disclaimer::{
    answer, answered, ask_outcome, body, can_ask, r_agree, r_decline, Disclaimer, HIT_AGREE,
    HIT_DECLINE, HIT_NONE, VK_ESCAPE, VK_RETURN,
};

#[test]
fn buttons_and_hits() {
    let d = Disclaimer::new(4);
    let a = r_agree();
    assert_eq!((a.left, a.top, a.right, a.bottom), (336, 354, 536, 396));
    let n = r_decline();
    assert_eq!((n.left, n.top, n.right, n.bottom), (24, 354, 224, 396));
    assert_eq!(d.hit(400, 370), HIT_AGREE);
    assert_eq!(d.hit(100, 370), HIT_DECLINE);
    assert_eq!(d.hit(300, 370), HIT_NONE);
}

#[test]
fn clicking_agree_or_decline() {
    let mut d = Disclaimer::new(4);
    assert!(!d.on_click(300, 10));
    assert_eq!(d.agreed, None);
    assert!(d.on_click(100, 370));
    assert_eq!(d.agreed, Some(false));
    let mut d = Disclaimer::new(4);
    assert!(d.on_click(400, 370));
    assert_eq!(d.agreed, Some(true));
}

#[test]
fn keys_and_closing() {
    let mut d = Disclaimer::new(4);
    assert!(!d.on_key(0x41));
    assert!(d.on_key(VK_RETURN));
    assert_eq!(d.agreed, Some(true));
    let mut d = Disclaimer::new(4);
    assert!(d.on_key(VK_ESCAPE));
    assert_eq!(d.agreed, Some(false));
    let mut d = Disclaimer::new(4);
    d.on_close();
    assert_eq!(d.agreed, Some(false));
}

#[test]
fn only_agreement_goes_on() {
    let mut o = Some(Disclaimer::new(4));
    assert!(can_ask(&o));
    assert!(!answered(&o));
    assert!(!answer(&o));
    o.as_mut().unwrap().on_key(VK_ESCAPE);
    assert!(answered(&o));
    assert!(!ask_outcome(&o));
    let mut o = Some(Disclaimer::new(4));
    o.as_mut().unwrap().on_key(VK_RETURN);
    assert!(ask_outcome(&o));
    // no dialog window: nobody agreed, so the program does not go on
    let none: Option<Disclaimer> = None;
    assert!(!ask_outcome(&none));
    assert!(answered(&none));
    assert!(!ask_outcome(&Some(Disclaimer::new(0))));
    let mut hidden = Some(Disclaimer::new(0));
    hidden.as_mut().unwrap().on_key(VK_RETURN);
    assert!(!ask_outcome(&hidden));
}

#[test]
fn hover_changes() {
    let mut d = Disclaimer::new(4);
    assert!(d.set_hover(HIT_AGREE));
    assert!(!d.set_hover(HIT_AGREE));
    assert_eq!(d.hover, HIT_AGREE);
}

#[test]
fn body_has_four_paragraphs() {
    let b = body();
    assert_eq!(b.split("\n\n").count(), 4);
    assert!(b.starts_with("本软件是一款免费开源软件"));
    assert!(b.ends_with("将立即退出本软件。"));
}
