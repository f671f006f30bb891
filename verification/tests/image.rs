use base64::Engine;
use mdviewer::image::{
    decode_image, encode_for_terminal, iterm2_command, kitty_placement_command, kitty_to_transmit, kitty_transmit_commands,
    KittyIds, RgbaPixels,
};

#[test]
fn short_image_goes_in_one_kitty_command() {
    let cmds = kitty_transmit_commands("QUJD", 7);
    assert_eq!(cmds, vec!["\x1b_Gf=100,a=t,t=d,i=7,q=2;QUJD\x1b\\".to_string()]);
}

#[test]
fn long_image_goes_in_kitty_chunks() {
    let b64 = "A".repeat(5000);
    let cmds = kitty_transmit_commands(&b64, 3);
    assert_eq!(cmds.len(), 2);
    assert_eq!(cmds[0], format!("\x1b_Gf=100,a=t,t=d,i=3,q=2,m=1;{}\x1b\\", "A".repeat(4096)));
    assert_eq!(cmds[1], format!("\x1b_Gm=0;{}\x1b\\", "A".repeat(904)));
}

#[test]
fn placement_and_iterm_commands() {
    assert_eq!(kitty_placement_command(2, 40, 12), "\x1b_Ga=p,i=2,c=40,r=12,q=2\x1b\\");
    assert_eq!(
        iterm2_command("QUJD", 3, 10, 4),
        "\x1b]1337;File=inline=1;size=3;width=10;height=4;preserveAspectRatio=1:QUJD\x07"
    );
}

#[test]
fn kitty_ids_are_given_once_and_fresh() {
    let ids = KittyIds { ids: vec![("a.png".to_string(), 1)], next: 1 };
    let urls = vec!["a.png".to_string(), "b.png".to_string(), "c.png".to_string(), "b.png".to_string()];
    let (after, sent) = kitty_to_transmit(&ids, &urls);
    assert_eq!(sent, vec![("b.png".to_string(), 2), ("c.png".to_string(), 3)]);
    assert_eq!(after.next, 3);
    assert_eq!(after.ids.len(), 3);
    let (again, none) = kitty_to_transmit(&after, &urls);
    assert!(none.is_empty());
    assert_eq!(again.next, 3);
}

#[test]
fn images_decode_and_encode_for_the_terminal() {
    let px = RgbaPixels { width: 2, height: 1, pixels: vec![255, 0, 0, 255, 0, 0, 255, 128] };
    let enc = encode_for_terminal(&px).unwrap();
    assert!(enc.png_size > 8);
    assert_eq!(enc.base64.len(), 4 * ((enc.png_size + 2) / 3));
    assert!(enc.base64.starts_with("iVBORw0KGgo"));
    let png = base64::engine::general_purpose::STANDARD.decode(&enc.base64).unwrap();
    let back = decode_image(&png).unwrap();
    assert_eq!((back.width, back.height), (2, 1));
    assert_eq!(back.pixels, px.pixels);
    assert!(decode_image(&vec![1, 2, 3]).is_none());
}
