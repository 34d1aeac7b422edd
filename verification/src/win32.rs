//! The plain Win32 records that the window code exchanges with the system, and
//! the small conversions around them: colour values, the halves of a message
//! word, and NUL-terminated wide strings.
use vstd::prelude::*;
use crate::usn::{utf16_decode_lossy, utf16_to_string};
pub use crate::usn::to_wstring;

verus! {

pub struct POINT {
    pub x: i32,
    pub y: i32,
}

pub struct SIZE {
    pub cx: i32,
    pub cy: i32,
}

pub struct RECT {
    pub left: i32,
    pub top: i32,
    pub right: i32,
    pub bottom: i32,
}

impl RECT {
    /// Horizontal extent, right less left.
    pub fn width(&self) -> (r: i32)
        requires
            i32::MIN <= self.right - self.left <= i32::MAX,
        ensures
            r == self.right - self.left,
    {
        self.right - self.left
    }

    /// Vertical extent, bottom less top.
    pub fn height(&self) -> (r: i32)
        requires
            i32::MIN <= self.bottom - self.top <= i32::MAX,
        ensures
            r == self.bottom - self.top,
    {
        self.bottom - self.top
    }
}

pub struct BITMAPINFOHEADER {
    pub biSize: u32,
    pub biWidth: i32,
    pub biHeight: i32,
    pub biPlanes: u16,
    pub biBitCount: u16,
    pub biCompression: u32,
    pub biSizeImage: u32,
    pub biXPelsPerMeter: i32,
    pub biYPelsPerMeter: i32,
    pub biClrUsed: u32,
    pub biClrImportant: u32,
}

pub struct BITMAPINFO {
    pub bmiHeader: BITMAPINFOHEADER,
    pub bmiColors: [u32; 1],
}

pub struct MINMAXINFO {
    pub ptReserved: POINT,
    pub ptMaxSize: POINT,
    pub ptMaxPosition: POINT,
    pub ptMinTrackSize: POINT,
    pub ptMaxTrackSize: POINT,
}

pub struct LOGBRUSH {
    pub lbStyle: u32,
    pub lbColor: u32,
    pub lbHatch: usize,
}

pub struct LOGFONTW {
    pub lfHeight: i32,
    pub lfWidth: i32,
    pub lfEscapement: i32,
    pub lfOrientation: i32,
    pub lfWeight: i32,
    pub lfItalic: u8,
    pub lfUnderline: u8,
    pub lfStrikeOut: u8,
    pub lfCharSet: u8,
    pub lfOutPrecision: u8,
    pub lfClipPrecision: u8,
    pub lfQuality: u8,
    pub lfPitchAndFamily: u8,
    pub lfFaceName: [u16; 32],
}

pub struct KBDLLHOOKSTRUCT {
    pub vkCode: u32,
    pub scanCode: u32,
    pub flags: u32,
    pub time: u32,
    pub dwExtraInfo: usize,
}

pub struct MSLLHOOKSTRUCT {
    pub pt: POINT,
    pub mouseData: u32,
    pub flags: u32,
    pub time: u32,
    pub dwExtraInfo: usize,
}

/// A colour value: red in the low byte, then green, then blue.
pub fn rgb(r: u8, g: u8, b: u8) -> (c: u32)
    ensures
        c == r + g * 256 + b * 65536,
{
    let c = (r as u32) | ((g as u32) << 8) | ((b as u32) << 16);
    assert(c == r + g * 256 + b * 65536) by (bit_vector)
        requires
            c == (r as u32) | ((g as u32) << 8) | ((b as u32) << 16),
    ;
    c
}

/// The red byte of a colour value.
pub fn get_r(rgb: u32) -> (r: u8)
    ensures
        r == rgb % 256,
{
    let r = rgb as u8;
    assert(r == rgb % 256) by (bit_vector)
        requires
            r == rgb as u8,
    ;
    r
}

/// The green byte of a colour value.
pub fn get_g(rgb: u32) -> (g: u8)
    ensures
        g == (rgb / 256) % 256,
{
    let g = (rgb >> 8) as u8;
    assert(g == (rgb / 256) % 256) by (bit_vector)
        requires
            g == (rgb >> 8) as u8,
    ;
    g
}

/// The blue byte of a colour value.
pub fn get_b(rgb: u32) -> (b: u8)
    ensures
        b == (rgb / 65536) % 256,
{
    let b = (rgb >> 16) as u8;
    assert(b == (rgb / 65536) % 256) by (bit_vector)
        requires
            b == (rgb >> 16) as u8,
    ;
    b
}

/// The high half of a message word.
pub fn hiword(l: u32) -> (w: u16)
    ensures
        w == l / 65536,
{
    let w = (l >> 16) as u16;
    assert(w == l / 65536) by (bit_vector)
        requires
            w == (l >> 16) as u16,
    ;
    w
}

/// The low half of a message word.
pub fn loword(l: u32) -> (w: u16)
    ensures
        w == l % 65536,
{
    let w = l as u16;
    assert(w == l % 65536) by (bit_vector)
        requires
            w == l as u16,
    ;
    w
}

/// The bytes of a colour value are the ones it was made of.
pub proof fn lemma_rgb_parts(r: u8, g: u8, b: u8)
    ensures
        (r + g * 256 + b * 65536) % 256 == r,
        ((r + g * 256 + b * 65536) / 256) % 256 == g,
        ((r + g * 256 + b * 65536) / 65536) % 256 == b,
{
    assert((r + g * 256 + b * 65536) % 256 == r) by (nonlinear_arith)
        requires
            r < 256,
            g < 256,
            b < 256,
    ;
    assert(((r + g * 256 + b * 65536) / 256) % 256 == g) by (nonlinear_arith)
        requires
            r < 256,
            g < 256,
            b < 256,
    ;
    assert(((r + g * 256 + b * 65536) / 65536) % 256 == b) by (nonlinear_arith)
        requires
            r < 256,
            g < 256,
            b < 256,
    ;
}

/// The units of a wide string before its first NUL (all of them when there is none).
pub open spec fn before_nul(units: Seq<u16>) -> Seq<u16>
    decreases units.len(),
{
    if units.len() == 0 {
        units
    } else if units[0] == 0 {
        seq![]
    } else {
        seq![units[0]] + before_nul(units.drop_first())
    }
}

/// The text of a NUL-terminated wide string, unpaired surrogates replaced.
pub fn from_wstring(units: &[u16]) -> (s: String)
    ensures
        s@ == utf16_decode_lossy(before_nul(units@)),
{
    let mut v: Vec<u16> = Vec::new();
    let mut i: usize = 0;
    assert(units@.skip(0) =~= units@);
    while i < units.len() && units[i] != 0
        invariant
            i <= units.len(),
            before_nul(units@) == v@ + before_nul(units@.skip(i as int)),
        decreases units.len() - i,
    {
        assert(units@.skip(i as int).drop_first() =~= units@.skip(i + 1));
        let ghost old_v = v@;
        v.push(units[i]);
        assert(v@ =~= old_v + seq![units@[i as int]]);
        i = i + 1;
    }
    assert(before_nul(units@.skip(i as int)) =~= Seq::<u16>::empty()) by {
        if i < units.len() {
            assert(units@.skip(i as int)[0] == 0);
        }
    }
    assert(v@ =~= before_nul(units@));
    utf16_to_string(&v)
}

} // verus!
