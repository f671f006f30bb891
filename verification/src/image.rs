//! How inline images are drawn: the graphics protocol the terminal speaks,
//! and the escape sequences that send and place images in it.
use vstd::prelude::*;
use base64::Engine;
use image::ImageEncoder;
use crate::text::{chars_of, contains_chars, contains_seq, push_all, push_str, string_of};
use crate::viewer::{decimal, decimal_chars};

verus! {

/// The ways an image can be put on the terminal.
#[derive(Clone, Copy, PartialEq, Eq, Debug)]
pub enum ImageProtocol {
    Kitty,
    ITerm2,
    HalfBlock,
}

/// Which protocol a terminal supports, from its environment: whether
/// `KITTY_WINDOW_ID` and `GHOSTTY_RESOURCES_DIR` are set, and the values of
/// `TERM` and `TERM_PROGRAM`. Kitty and Ghostty speak the Kitty graphics
/// protocol, iTerm2 and WezTerm the iTerm2 one, and every other terminal
/// gets half-block characters.
pub open spec fn protocol_for(
    kitty_window_id: bool,
    ghostty_resources_dir: bool,
    term: Option<Seq<char>>,
    term_program: Option<Seq<char>>,
) -> ImageProtocol {
    let term_says_kitty = match term {
        Some(t) => contains_seq(t, seq!['k', 'i', 't', 't', 'y']) || contains_seq(
            t,
            seq!['g', 'h', 'o', 's', 't', 't', 'y'],
        ),
        None => false,
    };
    if kitty_window_id || ghostty_resources_dir || term_says_kitty {
        ImageProtocol::Kitty
    } else if term_program == Some(seq!['i', 'T', 'e', 'r', 'm', '.', 'a', 'p', 'p'])
        || term_program == Some(seq!['W', 'e', 'z', 'T', 'e', 'r', 'm']) {
        ImageProtocol::ITerm2
    } else {
        ImageProtocol::HalfBlock
    }
}

pub open spec fn opt_str_view(o: Option<&str>) -> Option<Seq<char>> {
    match o {
        Some(s) => Some(s@),
        None => None,
    }
}

fn text_eq(a: &Vec<char>, b: &Vec<char>) -> (r: bool)
    ensures
        r == (a@ == b@),
{
    if a.len() != b.len() {
        return false;
    }
    let mut i: usize = 0;
    while i < a.len()
        invariant
            i <= a.len() == b.len(),
            forall|j: int| 0 <= j < i ==> a@[j] == b@[j],
        decreases a.len() - i,
    {
        if a[i] != b[i] {
            return false;
        }
        i = i + 1;
    }
    assert(a@ =~= b@);
    true
}

/// Chooses the image protocol from the terminal's environment; see
/// [`protocol_for`].
pub fn detect_protocol_from(
    kitty_window_id: bool,
    ghostty_resources_dir: bool,
    term: Option<&str>,
    term_program: Option<&str>,
) -> (r: ImageProtocol)
    ensures
        r == protocol_for(
            kitty_window_id,
            ghostty_resources_dir,
            opt_str_view(term),
            opt_str_view(term_program),
        ),
{
    proof {
        reveal_strlit("kitty");
        reveal_strlit("ghostty");
        reveal_strlit("iTerm.app");
        reveal_strlit("WezTerm");
    }
    let kitty = chars_of("kitty");
    let ghostty = chars_of("ghostty");
    assert(kitty@ =~= seq!['k', 'i', 't', 't', 'y']);
    assert(ghostty@ =~= seq!['g', 'h', 'o', 's', 't', 't', 'y']);
    let term_says_kitty = match term {
        Some(t) => {
            let tv = chars_of(t);
            contains_chars(&tv, &kitty) || contains_chars(&tv, &ghostty)
        },
        None => false,
    };
    if kitty_window_id || ghostty_resources_dir || term_says_kitty {
        return ImageProtocol::Kitty;
    }
    if let Some(p) = term_program {
        let pv = chars_of(p);
        let iterm = chars_of("iTerm.app");
        let wezterm = chars_of("WezTerm");
        assert(iterm@ =~= seq!['i', 'T', 'e', 'r', 'm', '.', 'a', 'p', 'p']);
        assert(wezterm@ =~= seq!['W', 'e', 'z', 'T', 'e', 'r', 'm']);
        if text_eq(&pv, &iterm) || text_eq(&pv, &wezterm) {
            return ImageProtocol::ITerm2;
        }
    }
    ImageProtocol::HalfBlock
}

/// The command that transmits a whole image to a Kitty terminal under
/// `id` in one piece.
pub open spec fn kitty_single(b64: Seq<char>, id: u32) -> Seq<char> {
    "\x1b_Gf=100,a=t,t=d,i="@ + decimal(id as nat) + ",q=2;"@ + b64 + "\x1b\\"@
}

/// The command carrying the chunk of `b64` from `start`: the first names
/// the image, the others only continue it; `m=1` while more follows.
pub open spec fn kitty_chunk(b64: Seq<char>, id: u32, start: int) -> Seq<char> {
    let end = if start + 4096 < b64.len() { start + 4096 } else { b64.len() as int };
    let more = if end < b64.len() { seq!['1'] } else { seq!['0'] };
    if start == 0 {
        "\x1b_Gf=100,a=t,t=d,i="@ + decimal(id as nat) + ",q=2,m="@ + more + seq![';'] + b64.subrange(start, end) + "\x1b\\"@
    } else {
        "\x1b_Gm="@ + more + seq![';'] + b64.subrange(start, end) + "\x1b\\"@
    }
}

/// The commands for the chunks from index `k` on.
pub open spec fn kitty_chunks_from(b64: Seq<char>, id: u32, k: nat) -> Seq<Seq<char>>
    decreases b64.len() + 4096 - k * 4096,
{
    if k * 4096 < b64.len() {
        seq![kitty_chunk(b64, id, (k * 4096) as int)] + kitty_chunks_from(b64, id, k + 1)
    } else {
        Seq::empty()
    }
}

/// The commands that transmit an image, given as base64 text, to a Kitty
/// terminal under `id` without showing it: one command when the text fits
/// a chunk, else one per chunk of 4096 characters (the chunk size Kitty
/// asks for).
pub open spec fn kitty_transmission(b64: Seq<char>, id: u32) -> Seq<Seq<char>> {
    if b64.len() <= 4096 {
        seq![kitty_single(b64, id)]
    } else {
        kitty_chunks_from(b64, id, 0)
    }
}

/// The commands that transmit `b64` (base64 text, so one byte per
/// character) to a Kitty terminal under `id`; see [`kitty_transmission`].
pub fn kitty_transmit_commands(b64: &str, id: u32) -> (cmds: Vec<String>)
    ensures
        cmds@.map_values(|c: String| c@) == kitty_transmission(b64@, id),
{
    let text = chars_of(b64);
    let idv = decimal_chars(id as usize);
    let mut cmds: Vec<String> = Vec::new();
    if text.len() <= 4096 {
        let mut c: Vec<char> = Vec::new();
        push_str(&mut c, "\x1b_Gf=100,a=t,t=d,i=");
        push_all(&mut c, &idv);
        push_str(&mut c, ",q=2;");
        push_all(&mut c, &text);
        push_str(&mut c, "\x1b\\");
        cmds.push(string_of(&c));
        proof {
            assert(cmds@.map_values(|c: String| c@) =~= kitty_transmission(b64@, id));
        }
        return cmds;
    }
    let mut start: usize = 0;
    let ghost mut k: nat = 0;
    proof {
        assert(cmds@.map_values(|c: String| c@) + kitty_chunks_from(b64@, id, 0) =~= kitty_chunks_from(b64@, id, 0));
    }
    while start < text.len()
        invariant
            text@ == b64@,
            idv@ == decimal(id as nat),
            text@.len() > 4096,
            start <= text@.len(),
            start < text@.len() ==> start == k * 4096,
            start == text@.len() ==> k * 4096 >= text@.len(),
            cmds@.map_values(|c: String| c@) + kitty_chunks_from(b64@, id, k) == kitty_chunks_from(b64@, id, 0),
        decreases text@.len() - start,
    {
        let end = if start < text.len() - 4096 { start + 4096 } else { text.len() };
        let mut c: Vec<char> = Vec::new();
        if start == 0 {
            push_str(&mut c, "\x1b_Gf=100,a=t,t=d,i=");
            push_all(&mut c, &idv);
            push_str(&mut c, ",q=2,m=");
        } else {
            push_str(&mut c, "\x1b_Gm=");
        }
        c.push(if end < text.len() { '1' } else { '0' });
        c.push(';');
        let mut i = start;
        let ghost c0 = c@;
        while i < end
            invariant
                start <= i <= end <= text@.len(),
                c@ == c0 + text@.subrange(start as int, i as int),
            decreases end - i,
        {
            c.push(text[i]);
            i = i + 1;
            proof {
                assert(c@ =~= c0 + text@.subrange(start as int, i as int));
            }
        }
        push_str(&mut c, "\x1b\\");
        let ghost before = cmds@.map_values(|c: String| c@);
        cmds.push(string_of(&c));
        proof {
            assert(c@ =~= kitty_chunk(b64@, id, start as int));
            assert(kitty_chunks_from(b64@, id, k) == seq![kitty_chunk(b64@, id, (k * 4096) as int)] + kitty_chunks_from(b64@, id, k + 1));
            assert(cmds@.map_values(|c: String| c@) =~= before.push(c@));
            assert(before.push(c@) + kitty_chunks_from(b64@, id, k + 1) =~= before + kitty_chunks_from(b64@, id, k));
            k = k + 1;
        }
        start = end;
    }
    proof {
        assert(kitty_chunks_from(b64@, id, k) =~= Seq::<Seq<char>>::empty());
        assert(cmds@.map_values(|c: String| c@) + Seq::<Seq<char>>::empty() =~= cmds@.map_values(|c: String| c@));
    }
    cmds
}

/// The command that shows image `id`, already transmitted to a Kitty
/// terminal, over `cols` columns and `rows` rows at the cursor.
pub fn kitty_placement_command(id: u32, cols: usize, rows: usize) -> (c: String)
    ensures
        c@ == "\x1b_Ga=p,i="@ + decimal(id as nat) + ",c="@ + decimal(cols as nat) + ",r="@ + decimal(rows as nat) + ",q=2\x1b\\"@,
{
    let mut v: Vec<char> = Vec::new();
    push_str(&mut v, "\x1b_Ga=p,i=");
    push_all(&mut v, &decimal_chars(id as usize));
    push_str(&mut v, ",c=");
    push_all(&mut v, &decimal_chars(cols));
    push_str(&mut v, ",r=");
    push_all(&mut v, &decimal_chars(rows));
    push_str(&mut v, ",q=2\x1b\\");
    string_of(&v)
}

/// The iTerm2 command that shows an inline PNG of `png_size` bytes, given
/// as base64 text, over `width` columns and `height` rows at the cursor.
pub fn iterm2_command(b64: &str, png_size: usize, width: usize, height: usize) -> (c: String)
    ensures
        c@ == "\x1b]1337;File=inline=1;size="@ + decimal(png_size as nat) + ";width="@ + decimal(width as nat) + ";height="@
            + decimal(height as nat) + ";preserveAspectRatio=1:"@ + b64@ + "\x07"@,
{
    let mut v: Vec<char> = Vec::new();
    push_str(&mut v, "\x1b]1337;File=inline=1;size=");
    push_all(&mut v, &decimal_chars(png_size));
    push_str(&mut v, ";width=");
    push_all(&mut v, &decimal_chars(width));
    push_str(&mut v, ";height=");
    push_all(&mut v, &decimal_chars(height));
    push_str(&mut v, ";preserveAspectRatio=1:");
    push_str(&mut v, b64);
    push_str(&mut v, "\x07");
    string_of(&v)
}

// ───── decoding and encoding ─────

/// What image's `load_from_memory` makes of file bytes, converted to 8-bit
/// RGBA: width, height and the pixel bytes; `None` where it cannot decode
/// them.
pub uninterp spec fn decoded_rgba(bytes: Seq<u8>) -> Option<(u32, u32, Seq<u8>)>;

/// image's `load_from_memory`, then `to_rgba8`: named [`decoded_rgba`].
#[verifier::external_body]
fn decode_rgba(bytes: &Vec<u8>) -> (r: Option<(u32, u32, Vec<u8>)>)
    ensures
        match r {
            Some((w, h, px)) => decoded_rgba(bytes@) == Some((w, h, px@)),
            None => decoded_rgba(bytes@) is None,
        },
{
    match image::load_from_memory(bytes.as_slice()) {
        Ok(img) => {
            let rgba = img.to_rgba8();
            Some((rgba.width(), rgba.height(), rgba.into_raw()))
        },
        Err(_) => None,
    }
}

/// The PNG file that image's `PngEncoder` writes for 8-bit RGBA pixels, or
/// `None` where it reports an error.
pub uninterp spec fn png_of(width: u32, height: u32, pixels: Seq<u8>) -> Option<Seq<u8>>;

/// image's `PngEncoder::write_image` on 8-bit RGBA pixels: named
/// [`png_of`]. The encoder panics unless there are four bytes a pixel.
#[verifier::external_body]
fn encode_png_rgba(width: u32, height: u32, pixels: &Vec<u8>) -> (r: Option<Vec<u8>>)
    requires
        pixels@.len() == 4 * width * height,
    ensures
        match r {
            Some(b) => png_of(width, height, pixels@) == Some(b@),
            None => png_of(width, height, pixels@) is None,
        },
{
    let mut out: Vec<u8> = Vec::new();
    match image::codecs::png::PngEncoder::new(&mut out).write_image(
        pixels.as_slice(),
        width,
        height,
        image::ExtendedColorType::Rgba8,
    ) {
        Ok(()) => Some(out),
        Err(_) => None,
    }
}

/// The text that base64's standard engine (with padding) gives for bytes.
pub uninterp spec fn base64_text(bytes: Seq<u8>) -> Seq<char>;

/// base64's `STANDARD.encode`: named [`base64_text`]; four chars for every
/// three bytes or part of three.
#[verifier::external_body]
fn base64_encode(bytes: &Vec<u8>) -> (s: String)
    ensures
        s@ == base64_text(bytes@),
        s@.len() == 4 * ((bytes@.len() + 2) / 3),
{
    base64::engine::general_purpose::STANDARD.encode(bytes.as_slice())
}

/// An image as 8-bit RGBA pixels, four bytes a pixel, row by row.
pub struct RgbaPixels {
    pub width: u32,
    pub height: u32,
    pub pixels: Vec<u8>,
}

impl RgbaPixels {
    /// Four bytes for every pixel.
    pub open spec fn wf(&self) -> bool {
        self.pixels@.len() == 4 * self.width * self.height
    }
}

/// Decodes the bytes of an image file (a format the image crate reads) to
/// RGBA pixels; `None` where it cannot, or where the pixels it gives are
/// not four bytes each.
pub fn decode_image(bytes: &Vec<u8>) -> (r: Option<RgbaPixels>)
    ensures
        r is Some <==> (decoded_rgba(bytes@) matches Some((w, h, px)) && px.len() == 4 * w * h),
        r matches Some(img) ==> img.wf() && decoded_rgba(bytes@) == Some((img.width, img.height, img.pixels@)),
{
    match decode_rgba(bytes) {
        Some((w, h, px)) => {
            let w2: u128 = w as u128;
            let h2: u128 = h as u128;
            proof {
                assert(w2 * h2 <= 0xffff_ffff * 0xffff_ffffu128) by (nonlinear_arith)
                    requires
                        w2 <= 0xffff_ffff,
                        h2 <= 0xffff_ffff,
                ;
            }
            let need: u128 = w2 * h2 * 4;
            proof {
                assert(need as int == 4 * (w as int) * (h as int)) by (nonlinear_arith)
                    requires
                        need == w2 * h2 * 4,
                        w2 == w as int,
                        h2 == h as int,
                ;
            }
            if px.len() as u128 == need {
                Some(RgbaPixels { width: w, height: h, pixels: px })
            } else {
                None
            }
        },
        None => None,
    }
}

/// An image as the Kitty and iTerm2 protocols send it: the PNG file in
/// base64, and the PNG's size in bytes.
pub struct EncodedPng {
    pub base64: String,
    pub png_size: usize,
}

/// Encodes pixels for the terminal: as PNG, then base64; `None` where the
/// PNG encoder fails.
pub fn encode_for_terminal(img: &RgbaPixels) -> (r: Option<EncodedPng>)
    requires
        img.wf(),
    ensures
        r is Some <==> png_of(img.width, img.height, img.pixels@) is Some,
        r matches Some(e) ==> {
            let png = png_of(img.width, img.height, img.pixels@)->0;
            &&& e.png_size == png.len()
            &&& e.base64@ == base64_text(png)
        },
{
    match encode_png_rgba(img.width, img.height, &img.pixels) {
        Some(png) => {
            let b64 = base64_encode(&png);
            Some(EncodedPng { base64: b64, png_size: png.len() })
        },
        None => None,
    }
}

// ───── sending each image once ─────

/// The Kitty ids given so far, by URL, and the last id given.
pub struct KittyIds {
    pub ids: Vec<(String, u32)>,
    pub next: u32,
}

/// The ids as values.
pub open spec fn ids_view(ids: Seq<(String, u32)>) -> Seq<(Seq<char>, u32)> {
    ids.map_values(|p: (String, u32)| (p.0@, p.1))
}

/// Whether `url` has an id in `ids`.
pub open spec fn has_id(ids: Seq<(Seq<char>, u32)>, url: Seq<char>) -> bool {
    exists|i: int| 0 <= i < ids.len() && (#[trigger] ids[i]).0 == url
}

impl KittyIds {
    /// Each URL has one id; the ids differ and none is above `next`.
    pub open spec fn wf(&self) -> bool {
        let v = ids_view(self.ids@);
        &&& forall|i: int, j: int| 0 <= i < j < v.len() ==> (#[trigger] v[i]).0 != (#[trigger] v[j]).0 && v[i].1 != v[j].1
        &&& forall|i: int| 0 <= i < v.len() ==> 1 <= (#[trigger] v[i]).1 <= self.next
    }
}

/// Sending the images of `urls`, in order, given the ids so far and the
/// last id given: each URL without an id gets the next id and is sent, the
/// others are left alone. The ids after, the last id after, and what is
/// sent with which id.
pub open spec fn kitty_plan(ids: Seq<(Seq<char>, u32)>, next: int, urls: Seq<Seq<char>>) -> (
    Seq<(Seq<char>, u32)>,
    int,
    Seq<(Seq<char>, u32)>,
)
    decreases urls.len(),
{
    if urls.len() == 0 {
        (ids, next, Seq::empty())
    } else {
        let (i2, n2, sent) = kitty_plan(ids, next, urls.drop_last());
        let u = urls.last();
        if has_id(i2, u) {
            (i2, n2, sent)
        } else {
            (i2.push((u, (n2 + 1) as u32)), n2 + 1, sent.push((u, (n2 + 1) as u32)))
        }
    }
}

/// Fresh ids: sending keeps every id given, adds one for each URL sent,
/// numbered on from the last id given in the order sent, and leaves every
/// URL of `urls` with an id.
pub proof fn lemma_kitty_fresh_ids(ids: Seq<(Seq<char>, u32)>, next: int, urls: Seq<Seq<char>>)
    requires
        0 <= next,
        next + urls.len() <= u32::MAX,
    ensures
        ({
            let (i2, n2, sent) = kitty_plan(ids, next, urls);
            &&& i2 == ids + sent
            &&& n2 == next + sent.len()
            &&& sent.len() <= urls.len()
            &&& forall|k: int| 0 <= k < sent.len() ==> (#[trigger] sent[k]).1 == next + 1 + k
            &&& forall|k: int| 0 <= k < urls.len() ==> has_id(i2, #[trigger] urls[k])
        }),
    decreases urls.len(),
{
    if urls.len() > 0 {
        lemma_kitty_fresh_ids(ids, next, urls.drop_last());
        let (i2, n2, sent) = kitty_plan(ids, next, urls.drop_last());
        let u = urls.last();
        let (i3, n3, sent3) = kitty_plan(ids, next, urls);
        assert forall|k: int| 0 <= k < urls.len() implies has_id(i3, #[trigger] urls[k]) by {
            if k < urls.len() - 1 {
                assert(urls.drop_last()[k] == urls[k]);
                assert(has_id(i2, urls[k]));
                let i = choose|i: int| 0 <= i < i2.len() && (#[trigger] i2[i]).0 == urls[k];
                if !has_id(i2, u) {
                    assert(i3[i] == i2[i]);
                }
            } else if !has_id(i2, u) {
                assert(i3[i2.len() as int].0 == u);
            }
        }
        if !has_id(i2, u) {
            assert(i3 =~= ids + sent3);
        }
    }
}

/// Sending once: once the images of `urls` were sent, sending them again
/// sends nothing and gives no new id.
pub proof fn lemma_kitty_sends_once(ids: Seq<(Seq<char>, u32)>, next: int, urls: Seq<Seq<char>>)
    requires
        0 <= next,
        next + urls.len() <= u32::MAX,
    ensures
        ({
            let (i2, n2, _) = kitty_plan(ids, next, urls);
            kitty_plan(i2, n2, urls) == (i2, n2, Seq::<(Seq<char>, u32)>::empty())
        }),
{
    lemma_kitty_fresh_ids(ids, next, urls);
    let (i2, n2, _) = kitty_plan(ids, next, urls);
    lemma_plan_known(i2, n2, urls);
}

proof fn lemma_plan_known(ids: Seq<(Seq<char>, u32)>, next: int, urls: Seq<Seq<char>>)
    requires
        forall|k: int| 0 <= k < urls.len() ==> has_id(ids, #[trigger] urls[k]),
    ensures
        kitty_plan(ids, next, urls) == (ids, next, Seq::<(Seq<char>, u32)>::empty()),
    decreases urls.len(),
{
    if urls.len() > 0 {
        assert forall|k: int| 0 <= k < urls.drop_last().len() implies has_id(ids, #[trigger] urls.drop_last()[k]) by {
            assert(urls.drop_last()[k] == urls[k]);
        }
        lemma_plan_known(ids, next, urls.drop_last());
        assert(has_id(ids, urls[urls.len() - 1]));
    }
}

/// Whether `url` has an id among `ids`.
fn find_id(ids: &Vec<(String, u32)>, url: &String) -> (r: bool)
    ensures
        r == has_id(ids_view(ids@), url@),
{
    let mut i: usize = 0;
    while i < ids.len()
        invariant
            i <= ids@.len(),
            forall|j: int| 0 <= j < i ==> ids@[j].0@ != url@,
        decreases ids@.len() - i,
    {
        if ids[i].0 == *url {
            proof {
                assert(ids_view(ids@)[i as int].0 == url@);
            }
            return true;
        }
        i = i + 1;
    }
    proof {
        if has_id(ids_view(ids@), url@) {
            let k = choose|k: int| 0 <= k < ids_view(ids@).len() && (#[trigger] ids_view(ids@)[k]).0 == url@;
            assert(ids@[k].0@ == url@);
        }
    }
    false
}

/// The images of `encoded` (their URLs, in order) that are not yet on the
/// Kitty terminal, each with a fresh id, and the ids after sending them:
/// see [`kitty_plan`]. Each URL without an id gets exactly one, above the
/// last id given and in order; the ids already given stay as they are.
pub fn kitty_to_transmit(ids: &KittyIds, encoded: &Vec<String>) -> (r: (KittyIds, Vec<(String, u32)>))
    requires
        ids.next + encoded@.len() <= u32::MAX,
    ensures
        ({
            let (i2, n2, sent) = kitty_plan(ids_view(ids.ids@), ids.next as int, encoded@.map_values(|u: String| u@));
            &&& ids_view(r.0.ids@) == i2
            &&& r.0.next == n2
            &&& ids_view(r.1@) == sent
        }),
        ids.wf() ==> r.0.wf(),
{
    let ghost urls = encoded@.map_values(|u: String| u@);
    let mut out: Vec<(String, u32)> = Vec::new();
    let mut k: usize = 0;
    while k < ids.ids.len()
        invariant
            k <= ids.ids@.len(),
            out@ == ids.ids@.take(k as int),
        decreases ids.ids@.len() - k,
    {
        out.push((ids.ids[k].0.clone(), ids.ids[k].1));
        proof {
            assert(out@ =~= ids.ids@.take(k + 1));
        }
        k = k + 1;
    }
    proof {
        assert(out@ =~= ids.ids@);
    }
    let mut next: u32 = ids.next;
    let mut sent: Vec<(String, u32)> = Vec::new();
    let mut i: usize = 0;
    while i < encoded.len()
        invariant
            i <= encoded@.len(),
            ids.next + encoded@.len() <= u32::MAX,
            urls == encoded@.map_values(|u: String| u@),
            next <= ids.next + i,
            kitty_plan(ids_view(ids.ids@), ids.next as int, urls.take(i as int)) == (ids_view(out@), next as int, ids_view(sent@)),
        decreases encoded@.len() - i,
    {
        proof {
            assert(urls.take(i + 1).drop_last() =~= urls.take(i as int));
            assert(urls.take(i + 1).last() == encoded@[i as int]@);
            lemma_kitty_fresh_ids(ids_view(ids.ids@), ids.next as int, urls.take(i as int));
        }
        if !find_id(&out, &encoded[i]) {
            next = next + 1;
            out.push((encoded[i].clone(), next));
            sent.push((encoded[i].clone(), next));
            proof {
                assert(ids_view(out@) =~= ids_view(out@.drop_last()).push((encoded@[i as int]@, next)));
                assert(ids_view(sent@) =~= ids_view(sent@.drop_last()).push((encoded@[i as int]@, next)));
            }
        }
        i = i + 1;
    }
    proof {
        assert(urls.take(encoded@.len() as int) =~= urls);
    }
    let r = (KittyIds { ids: out, next }, sent);
    proof {
        if ids.wf() {
            lemma_kitty_fresh_ids(ids_view(ids.ids@), ids.next as int, urls);
            let v = ids_view(r.0.ids@);
            let old_v = ids_view(ids.ids@);
            let (i2, n2, sv) = kitty_plan(old_v, ids.next as int, urls);
            assert forall|a: int, b: int| 0 <= a < b < v.len() implies (#[trigger] v[a]).0 != (#[trigger] v[b]).0 && v[a].1 != v[b].1 by {
                lemma_plan_keys_distinct(old_v, ids.next as int, urls, a, b);
            }
        }
    }
    r
}

/// The ids stay one to a URL, and distinct.
proof fn lemma_plan_keys_distinct(ids: Seq<(Seq<char>, u32)>, next: int, urls: Seq<Seq<char>>, a: int, b: int)
    requires
        0 <= next,
        next + urls.len() <= u32::MAX,
        forall|i: int, j: int| 0 <= i < j < ids.len() ==> (#[trigger] ids[i]).0 != (#[trigger] ids[j]).0 && ids[i].1 != ids[j].1,
        forall|i: int| 0 <= i < ids.len() ==> 1 <= (#[trigger] ids[i]).1 <= next,
        0 <= a < b < kitty_plan(ids, next, urls).0.len(),
    ensures
        kitty_plan(ids, next, urls).0[a].0 != kitty_plan(ids, next, urls).0[b].0,
        kitty_plan(ids, next, urls).0[a].1 != kitty_plan(ids, next, urls).0[b].1,
    decreases urls.len(),
{
    lemma_kitty_fresh_ids(ids, next, urls);
    if urls.len() > 0 {
        let (i2, n2, sent) = kitty_plan(ids, next, urls.drop_last());
        lemma_kitty_fresh_ids(ids, next, urls.drop_last());
        let u = urls.last();
        if has_id(i2, u) || b < i2.len() {
            if !has_id(i2, u) {
                assert(kitty_plan(ids, next, urls).0[a] == i2[a]);
                assert(kitty_plan(ids, next, urls).0[b] == i2[b]);
            }
            lemma_plan_keys_distinct(ids, next, urls.drop_last(), a, b);
        } else {
            let i3 = kitty_plan(ids, next, urls).0;
            assert(i3[b] == (u, (n2 + 1) as u32));
            assert(i3[a] == i2[a]);
            if i2[a].0 == u {
                assert(has_id(i2, u));
            }
            if a < ids.len() {
                assert(i2[a] == ids[a]);
            } else {
                assert(i2[a] == sent[a - ids.len()]);
            }
        }
    }
}

} // verus!
