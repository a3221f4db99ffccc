use vstd::prelude::*;
use crate::decimal::{decimal, parse_u32, parse_u32_exec, push_decimal};
use crate::cursor::{append_bytes, bytes_eq};
use crate::patch_list::{is_space, is_space_byte, line_len, lemma_line_len_exact, run_end, run_len};

verus! {

/// Client display and sound settings kept in `DATA.INI`.
#[derive(Debug, Clone, Copy, PartialEq, Eq, Structural)]
pub struct GameSettings {
    pub resolution_width: u32,
    pub resolution_height: u32,
    pub fullscreen: bool,
    pub sound_enabled: bool,
    pub bgm_enabled: bool,
    pub mouse_freedom: bool,
    pub vsync: bool,
}

/// The settings used when nothing is configured.
pub open spec fn default_settings() -> GameSettings {
    GameSettings {
        resolution_width: 1920,
        resolution_height: 1080,
        fullscreen: false,
        sound_enabled: true,
        bgm_enabled: true,
        mouse_freedom: true,
        vsync: true,
    }
}

impl GameSettings {
    /// 1920 by 1080, windowed, sound and music on, free mouse, vsync on.
    pub fn default() -> (r: GameSettings)
        ensures
            r == default_settings(),
    {
        GameSettings {
            resolution_width: 1920,
            resolution_height: 1080,
            fullscreen: false,
            sound_enabled: true,
            bgm_enabled: true,
            mouse_freedom: true,
            vsync: true,
        }
    }
}

/// `WIDTH`.
pub open spec fn key_width() -> Seq<u8> {
    seq![0x57u8, 0x49u8, 0x44u8, 0x54u8, 0x48u8]
}

/// `HEIGHT`.
pub open spec fn key_height() -> Seq<u8> {
    seq![0x48u8, 0x45u8, 0x49u8, 0x47u8, 0x48u8, 0x54u8]
}

/// `SCREENMODE`.
pub open spec fn key_screenmode() -> Seq<u8> {
    seq![0x53u8, 0x43u8, 0x52u8, 0x45u8, 0x45u8, 0x4eu8, 0x4du8, 0x4fu8, 0x44u8, 0x45u8]
}

/// `ISFULLSCREENMODE`.
pub open spec fn key_isfullscreenmode() -> Seq<u8> {
    seq![0x49u8, 0x53u8, 0x46u8, 0x55u8, 0x4cu8, 0x4cu8, 0x53u8, 0x43u8, 0x52u8, 0x45u8, 0x45u8, 0x4eu8, 0x4du8, 0x4fu8, 0x44u8, 0x45u8]
}

/// `SOUNDVOLUME`.
pub open spec fn key_soundvolume() -> Seq<u8> {
    seq![0x53u8, 0x4fu8, 0x55u8, 0x4eu8, 0x44u8, 0x56u8, 0x4fu8, 0x4cu8, 0x55u8, 0x4du8, 0x45u8]
}

/// `BGMVOLUME`.
pub open spec fn key_bgmvolume() -> Seq<u8> {
    seq![0x42u8, 0x47u8, 0x4du8, 0x56u8, 0x4fu8, 0x4cu8, 0x55u8, 0x4du8, 0x45u8]
}

/// `MOUSEEXCLUSIVE`.
pub open spec fn key_mouseexclusive() -> Seq<u8> {
    seq![0x4du8, 0x4fu8, 0x55u8, 0x53u8, 0x45u8, 0x45u8, 0x58u8, 0x43u8, 0x4cu8, 0x55u8, 0x53u8, 0x49u8, 0x56u8, 0x45u8]
}

/// `s` without its leading and trailing white space.
pub open spec fn trim(s: Seq<u8>) -> Seq<u8> {
    let a = run_len(s, true) as int;
    let t = s.subrange(a, s.len() as int);
    t.subrange(0, t.len() - trail_len(t))
}

/// Number of trailing white-space bytes of `s`.
pub open spec fn trail_len(s: Seq<u8>) -> nat
    decreases s.len(),
{
    if s.len() == 0 || !is_space(s.last()) {
        0
    } else {
        1 + trail_len(s.drop_last())
    }
}

/// `l` without one trailing carriage return.
pub open spec fn strip_cr(l: Seq<u8>) -> Seq<u8> {
    if l.len() > 0 && l.last() == 0x0d {
        l.drop_last()
    } else {
        l
    }
}

/// The lines of `s`: split at line feeds, a carriage return before a line
/// feed dropped, no empty line after a final line feed.
pub open spec fn ini_lines(s: Seq<u8>) -> Seq<Seq<u8>>
    decreases s.len(),
{
    if s.len() == 0 {
        seq![]
    } else {
        let k = line_len(s) as int;
        if k < s.len() {
            seq![strip_cr(s.subrange(0, k))] + ini_lines(s.subrange(k + 1, s.len() as int))
        } else {
            seq![s]
        }
    }
}

/// `ls` joined with line feeds.
pub open spec fn joined(ls: Seq<Seq<u8>>) -> Seq<u8>
    decreases ls.len(),
{
    if ls.len() == 0 {
        seq![]
    } else if ls.len() == 1 {
        ls[0]
    } else {
        joined(ls.drop_last()) + seq![0x0au8] + ls.last()
    }
}

/// `line` starts with `p`.
pub open spec fn starts_with(line: Seq<u8>, p: Seq<u8>) -> bool {
    p.len() <= line.len() && line.subrange(0, p.len() as int) == p
}

/// `ls` with the first line that starts with `key=` replaced by
/// `key=value`, or with `key=value` added at the end where none does.
pub open spec fn updated(ls: Seq<Seq<u8>>, key: Seq<u8>, value: Seq<u8>) -> Seq<Seq<u8>> {
    let p = key + seq![0x3du8];
    if exists|i: int| 0 <= i < ls.len() && starts_with(#[trigger] ls[i], p) {
        let i = choose|i: int|
            0 <= i < ls.len() && starts_with(#[trigger] ls[i], p) && forall|j: int|
                0 <= j < i ==> !starts_with(#[trigger] ls[j], p);
        ls.update(i, p + value)
    } else {
        ls.push(p + value)
    }
}

/// Index of the first `=` in `line`, or -1.
pub open spec fn eq_pos(line: Seq<u8>) -> int
    decreases line.len(),
{
    if line.len() == 0 {
        -1
    } else if line[0] == 0x3d {
        0
    } else if eq_pos(line.drop_first()) < 0 {
        -1
    } else {
        eq_pos(line.drop_first()) + 1
    }
}

/// `1` or `0`.
pub open spec fn flag(b: bool) -> Seq<u8> {
    if b { seq![0x31u8] } else { seq![0x30u8] }
}

/// `100` or `0`.
pub open spec fn volume(b: bool) -> Seq<u8> {
    if b { seq![0x31u8, 0x30, 0x30] } else { seq![0x30u8] }
}

/// The settings after one line of `DATA.INI` is read: a line `key=value`
/// with a known key (both trimmed) sets the matching setting.
pub open spec fn apply_line(st: GameSettings, line: Seq<u8>) -> GameSettings {
    let e = eq_pos(line);
    if e < 0 {
        st
    } else {
        let key = trim(line.subrange(0, e));
        let val = trim(line.subrange(e + 1, line.len() as int));
        if key == key_width() {
            GameSettings { resolution_width: match parse_u32(val) { Some(v) => v, None => 1920 }, ..st }
        } else if key == key_height() {
            GameSettings { resolution_height: match parse_u32(val) { Some(v) => v, None => 1080 }, ..st }
        } else if key == key_screenmode() || key == key_isfullscreenmode() {
            GameSettings { fullscreen: val == seq![0x31u8], ..st }
        } else if key == key_soundvolume() {
            GameSettings { sound_enabled: match parse_u32(val) { Some(v) => v > 0, None => false }, ..st }
        } else if key == key_bgmvolume() {
            GameSettings { bgm_enabled: match parse_u32(val) { Some(v) => v > 0, None => false }, ..st }
        } else if key == key_mouseexclusive() {
            GameSettings { mouse_freedom: val == seq![0x30u8], ..st }
        } else {
            st
        }
    }
}

/// The settings after the lines `ls` are read in order from `st`.
pub open spec fn settings_after(st: GameSettings, ls: Seq<Seq<u8>>) -> GameSettings
    decreases ls.len(),
{
    if ls.len() == 0 {
        st
    } else {
        apply_line(settings_after(st, ls.drop_last()), ls.last())
    }
}

/// The settings that `DATA.INI` holding `content` gives.
pub open spec fn settings_from_ini_spec(content: Seq<u8>) -> GameSettings {
    settings_after(default_settings(), ini_lines(content))
}

/// `DATA.INI` rewritten for `s`: each of the seven keys set in place or
/// added at the end, in the order width, height, screen mode, sound, music,
/// full-screen mode, mouse.
pub open spec fn modified_ini(content: Seq<u8>, s: GameSettings) -> Seq<u8> {
    let l0 = ini_lines(content);
    let l1 = updated(l0, key_width(), decimal(s.resolution_width as nat));
    let l2 = updated(l1, key_height(), decimal(s.resolution_height as nat));
    let l3 = updated(l2, key_screenmode(), flag(s.fullscreen));
    let l4 = updated(l3, key_soundvolume(), volume(s.sound_enabled));
    let l5 = updated(l4, key_bgmvolume(), volume(s.bgm_enabled));
    let l6 = updated(l5, key_isfullscreenmode(), flag(s.fullscreen));
    let l7 = updated(l6, key_mouseexclusive(), flag(!s.mouse_freedom));
    joined(l7)
}

/// A fresh `DATA.INI` for `s`.
pub open spec fn fresh_ini(s: GameSettings) -> Seq<u8> {
    seq![0x5bu8, 0x53u8, 0x45u8, 0x54u8, 0x54u8, 0x49u8, 0x4eu8, 0x47u8, 0x5du8, 0x0au8] + key_width() + seq![0x3du8] + decimal(s.resolution_width as nat) + seq![0x0au8]
        + key_height() + seq![0x3du8] + decimal(s.resolution_height as nat) + seq![0x0au8]
        + key_screenmode() + seq![0x3du8] + flag(s.fullscreen) + seq![0x0au8]
        + key_isfullscreenmode() + seq![0x3du8] + flag(s.fullscreen) + seq![0x0au8]
        + key_soundvolume() + seq![0x3du8] + volume(s.sound_enabled) + seq![0x0au8]
        + key_bgmvolume() + seq![0x3du8] + volume(s.bgm_enabled) + seq![0x0au8]
        + key_mouseexclusive() + seq![0x3du8] + flag(!s.mouse_freedom) + seq![0x0au8]
        + seq![0x53u8, 0x50u8, 0x52u8, 0x49u8, 0x54u8, 0x45u8, 0x3du8, 0x33u8, 0x0au8, 0x54u8, 0x45u8, 0x58u8, 0x54u8, 0x55u8, 0x52u8, 0x45u8, 0x3du8, 0x33u8, 0x0au8, 0x44u8, 0x49u8, 0x47u8, 0x49u8, 0x54u8, 0x41u8, 0x4cu8, 0x3du8, 0x30u8, 0x0au8]
}

/// The byte views of a vector of lines.
pub open spec fn lviews(v: Seq<Vec<u8>>) -> Seq<Seq<u8>> {
    v.map_values(|l: Vec<u8>| l@)
}

fn key_width_bytes() -> (r: [u8; 5])
    ensures
        r@ == key_width(),
{
    let r: [u8; 5] = [0x57u8, 0x49u8, 0x44u8, 0x54u8, 0x48u8];
    assert(r@ =~= key_width());
    r
}

fn key_height_bytes() -> (r: [u8; 6])
    ensures
        r@ == key_height(),
{
    let r: [u8; 6] = [0x48u8, 0x45u8, 0x49u8, 0x47u8, 0x48u8, 0x54u8];
    assert(r@ =~= key_height());
    r
}

fn key_screenmode_bytes() -> (r: [u8; 10])
    ensures
        r@ == key_screenmode(),
{
    let r: [u8; 10] = [0x53u8, 0x43u8, 0x52u8, 0x45u8, 0x45u8, 0x4eu8, 0x4du8, 0x4fu8, 0x44u8, 0x45u8];
    assert(r@ =~= key_screenmode());
    r
}

fn key_isfullscreenmode_bytes() -> (r: [u8; 16])
    ensures
        r@ == key_isfullscreenmode(),
{
    let r: [u8; 16] = [0x49u8, 0x53u8, 0x46u8, 0x55u8, 0x4cu8, 0x4cu8, 0x53u8, 0x43u8, 0x52u8, 0x45u8, 0x45u8, 0x4eu8, 0x4du8, 0x4fu8, 0x44u8, 0x45u8];
    assert(r@ =~= key_isfullscreenmode());
    r
}

fn key_soundvolume_bytes() -> (r: [u8; 11])
    ensures
        r@ == key_soundvolume(),
{
    let r: [u8; 11] = [0x53u8, 0x4fu8, 0x55u8, 0x4eu8, 0x44u8, 0x56u8, 0x4fu8, 0x4cu8, 0x55u8, 0x4du8, 0x45u8];
    assert(r@ =~= key_soundvolume());
    r
}

fn key_bgmvolume_bytes() -> (r: [u8; 9])
    ensures
        r@ == key_bgmvolume(),
{
    let r: [u8; 9] = [0x42u8, 0x47u8, 0x4du8, 0x56u8, 0x4fu8, 0x4cu8, 0x55u8, 0x4du8, 0x45u8];
    assert(r@ =~= key_bgmvolume());
    r
}

fn key_mouseexclusive_bytes() -> (r: [u8; 14])
    ensures
        r@ == key_mouseexclusive(),
{
    let r: [u8; 14] = [0x4du8, 0x4fu8, 0x55u8, 0x53u8, 0x45u8, 0x45u8, 0x58u8, 0x43u8, 0x4cu8, 0x55u8, 0x53u8, 0x49u8, 0x56u8, 0x45u8];
    assert(r@ =~= key_mouseexclusive());
    r
}

/// Splits `content` into lines.
pub fn split_ini_lines(content: &[u8]) -> (r: Vec<Vec<u8>>)
    ensures
        lviews(r@) == ini_lines(content@),
{
    let len = content.len();
    let mut out: Vec<Vec<u8>> = Vec::new();
    let mut pos: usize = 0;
    proof {
        assert(content@.subrange(0, len as int) =~= content@);
        assert(Seq::<Seq<u8>>::empty() + ini_lines(content@) =~= ini_lines(content@));
    }
    while pos < len
        invariant
            len == content@.len(),
            pos <= len,
            ini_lines(content@) == lviews(out@) + ini_lines(content@.subrange(pos as int, len as int)),
        decreases len - pos,
    {
        let ghost s = content@.subrange(pos as int, len as int);
        let mut end = pos;
        while end < len && content[end] != 0x0a
            invariant
                pos <= end <= len,
                len == content@.len(),
                forall|j: int| pos <= j < end ==> content@[j] != 0x0a,
            decreases len - end,
        {
            end = end + 1;
        }
        proof {
            assert forall|j: int| 0 <= j < end - pos implies s[j] != 0x0a by {
                assert(s[j] == content@[pos + j]);
            }
            if end < len {
                assert(s[end - pos] == content@[end as int]);
            }
            lemma_line_len_exact(s, end - pos);
        }
        let ghost acc = lviews(out@);
        let line: Vec<u8>;
        let next: usize;
        if end < len {
            let stop = if end > pos && content[end - 1] == 0x0d { end - 1 } else { end };
            line = vstd::slice::slice_to_vec(vstd::slice::slice_subrange(content, pos, stop));
            next = end + 1;
            proof {
                let l = s.subrange(0, end - pos);
                assert(line@ =~= strip_cr(l));
                assert(s.subrange(end - pos + 1, s.len() as int) =~= content@.subrange(next as int, len as int));
            }
        } else {
            line = vstd::slice::slice_to_vec(vstd::slice::slice_subrange(content, pos, len));
            next = len;
            proof {
                assert(line@ =~= s);
                assert(content@.subrange(next as int, len as int) =~= Seq::<u8>::empty());
            }
        }
        let ghost lv = line@;
        out.push(line);
        proof {
            assert(lviews(out@) =~= acc.push(lv));
            let rest = ini_lines(content@.subrange(next as int, len as int));
            if end < len {
                assert(acc + (seq![lv] + rest) =~= acc.push(lv) + rest);
            } else {
                assert(rest =~= Seq::<Seq<u8>>::empty());
                assert(acc + seq![lv] =~= acc.push(lv) + rest);
            }
        }
        pos = next;
    }
    proof {
        assert(content@.subrange(pos as int, len as int) =~= Seq::<u8>::empty());
        assert(lviews(out@) + Seq::<Seq<u8>>::empty() =~= lviews(out@));
    }
    out
}

/// Joins `lines` with line feeds.
pub fn join_lines(lines: &Vec<Vec<u8>>) -> (r: Vec<u8>)
    ensures
        r@ == joined(lviews(lines@)),
{
    let ghost ls = lviews(lines@);
    let mut out: Vec<u8> = Vec::new();
    let mut i: usize = 0;
    while i < lines.len()
        invariant
            ls == lviews(lines@),
            i <= ls.len(),
            out@ == joined(ls.subrange(0, i as int)),
        decreases ls.len() - i,
    {
        let ghost before = out@;
        if i > 0 {
            out.push(0x0a);
        }
        append_bytes(&mut out, lines[i].as_slice());
        proof {
            let s = ls.subrange(0, i + 1);
            assert(s.drop_last() =~= ls.subrange(0, i as int));
            assert(s.last() == lines@[i as int]@);
            if i == 0 {
                assert(out@ =~= s[0]);
            } else {
                assert(out@ =~= before + seq![0x0au8] + s.last());
            }
        }
        i = i + 1;
    }
    assert(ls.subrange(0, i as int) =~= ls);
    out
}

fn starts_with_exec(line: &[u8], p: &[u8]) -> (r: bool)
    ensures
        r == starts_with(line@, p@),
{
    if line.len() < p.len() {
        return false;
    }
    bytes_eq(vstd::slice::slice_subrange(line, 0, p.len()), p)
}

/// Sets `key=value` in `lines`: the first line that starts with `key=` is
/// replaced, or the line is added at the end.
pub fn update_ini_value(lines: &mut Vec<Vec<u8>>, key: &[u8], value: &[u8])
    ensures
        lviews(final(lines)@) == updated(lviews(old(lines)@), key@, value@),
{
    let ghost ls = lviews(lines@);
    let mut p = vstd::slice::slice_to_vec(key);
    p.push(0x3d);
    let ghost pv = p@;
    assert(pv == key@ + seq![0x3du8]);
    let mut entry = vstd::slice::slice_to_vec(p.as_slice());
    append_bytes(&mut entry, value);
    let mut i: usize = 0;
    while i < lines.len()
        invariant
            ls == lviews(lines@),
            lines@ == old(lines)@,
            pv == p@,
            entry@ == pv + value@,
            pv == key@ + seq![0x3du8],
            i <= ls.len(),
            forall|j: int| 0 <= j < i ==> !starts_with(#[trigger] ls[j], pv),
        decreases ls.len() - i,
    {
        if starts_with_exec(lines[i].as_slice(), p.as_slice()) {
            proof {
                assert(ls[i as int] == lines@[i as int]@);
                assert(starts_with(ls[i as int], pv));
                let c = choose|c: int|
                    0 <= c < ls.len() && starts_with(#[trigger] ls[c], pv) && forall|j: int|
                        0 <= j < c ==> !starts_with(#[trigger] ls[j], pv);
                assert(0 <= c < ls.len() && starts_with(ls[c], pv));
                if c < i {
                    assert(!starts_with(ls[c], pv));
                }
                if c > i {
                    assert(!starts_with(ls[i as int], pv));
                }
                assert(c == i);
            }
            let ghost ev = entry@;
            lines.set(i, entry);
            assert(lviews(lines@) =~= ls.update(i as int, ev));
            return;
        }
        assert(ls[i as int] == lines@[i as int]@);
        i = i + 1;
    }
    let ghost ev = entry@;
    lines.push(entry);
    assert(lviews(lines@) =~= ls.push(ev));
}

proof fn lemma_eq_pos_exact(s: Seq<u8>, k: int)
    requires
        0 <= k <= s.len(),
        forall|j: int| 0 <= j < k ==> s[j] != 0x3d,
        k == s.len() || s[k] == 0x3d,
    ensures
        eq_pos(s) == (if k == s.len() { -1 } else { k }),
    decreases k,
{
    if k > 0 {
        assert forall|j: int| 0 <= j < k - 1 implies s.drop_first()[j] != 0x3d by {
            assert(s.drop_first()[j] == s[j + 1]);
        }
        if k < s.len() {
            assert(s.drop_first()[k - 1] == s[k]);
        }
        lemma_eq_pos_exact(s.drop_first(), k - 1);
    }
}

proof fn lemma_trail_len_exact(t: Seq<u8>, k: int)
    requires
        0 <= k <= t.len(),
        forall|j: int| t.len() - k <= j < t.len() ==> is_space(t[j]),
        k == t.len() || !is_space(t[t.len() - k - 1]),
    ensures
        trail_len(t) == k,
    decreases k,
{
    if k > 0 {
        let d = t.drop_last();
        assert forall|j: int| d.len() - (k - 1) <= j < d.len() implies is_space(d[j]) by {
            assert(d[j] == t[j]);
        }
        if k < t.len() {
            assert(d[d.len() - (k - 1) - 1] == t[t.len() - k - 1]);
        }
        lemma_trail_len_exact(d, k - 1);
    }
}

/// Bounds of `s` without its surrounding white space.
fn trim_bounds(s: &[u8]) -> (r: (usize, usize))
    ensures
        r.0 <= r.1 <= s@.len(),
        s@.subrange(r.0 as int, r.1 as int) == trim(s@),
{
    let a = run_end(s, 0, true);
    assert(s@.subrange(0, s@.len() as int) =~= s@);
    let mut b = s.len();
    while b > a && is_space_byte(s[b - 1])
        invariant
            a <= b <= s@.len(),
            forall|j: int| b <= j < s@.len() ==> is_space(s@[j]),
        decreases b,
    {
        b = b - 1;
    }
    proof {
        let t = s@.subrange(a as int, s@.len() as int);
        let k = (s@.len() - b) as int;
        assert forall|j: int| t.len() - k <= j < t.len() implies is_space(t[j]) by {
            assert(t[j] == s@[a + j]);
        }
        if k < t.len() {
            assert(t[t.len() - k - 1] == s@[b - 1]);
        }
        lemma_trail_len_exact(t, k);
        assert(t.subrange(0, t.len() - k) =~= s@.subrange(a as int, b as int));
    }
    (a, b)
}

/// Reads one line of `DATA.INI` into `st`.
fn apply_ini_line(st: GameSettings, line: &[u8]) -> (r: GameSettings)
    ensures
        r == apply_line(st, line@),
{
    let mut e: usize = 0;
    while e < line.len() && line[e] != 0x3d
        invariant
            e <= line@.len(),
            forall|j: int| 0 <= j < e ==> line@[j] != 0x3d,
        decreases line@.len() - e,
    {
        e = e + 1;
    }
    proof { lemma_eq_pos_exact(line@, e as int); }
    if e >= line.len() {
        return st;
    }
    let kseg = vstd::slice::slice_subrange(line, 0, e);
    let vseg = vstd::slice::slice_subrange(line, e + 1, line.len());
    let (ka, kb) = trim_bounds(kseg);
    let (va, vb) = trim_bounds(vseg);
    let key = vstd::slice::slice_subrange(kseg, ka, kb);
    let val = vstd::slice::slice_subrange(vseg, va, vb);
    let one: [u8; 1] = [0x31];
    let zero: [u8; 1] = [0x30];
    assert(one@ =~= seq![0x31u8]);
    assert(zero@ =~= seq![0x30u8]);
    if bytes_eq(key, key_width_bytes().as_slice()) {
        let w = match parse_u32_exec(val) {
            Some(v) => v,
            None => 1920,
        };
        GameSettings { resolution_width: w, ..st }
    } else if bytes_eq(key, key_height_bytes().as_slice()) {
        let h = match parse_u32_exec(val) {
            Some(v) => v,
            None => 1080,
        };
        GameSettings { resolution_height: h, ..st }
    } else if bytes_eq(key, key_screenmode_bytes().as_slice()) || bytes_eq(key, key_isfullscreenmode_bytes().as_slice()) {
        GameSettings { fullscreen: bytes_eq(val, one.as_slice()), ..st }
    } else if bytes_eq(key, key_soundvolume_bytes().as_slice()) {
        let on = match parse_u32_exec(val) {
            Some(v) => v > 0,
            None => false,
        };
        GameSettings { sound_enabled: on, ..st }
    } else if bytes_eq(key, key_bgmvolume_bytes().as_slice()) {
        let on = match parse_u32_exec(val) {
            Some(v) => v > 0,
            None => false,
        };
        GameSettings { bgm_enabled: on, ..st }
    } else if bytes_eq(key, key_mouseexclusive_bytes().as_slice()) {
        GameSettings { mouse_freedom: bytes_eq(val, zero.as_slice()), ..st }
    } else {
        st
    }
}

/// The settings that a `DATA.INI` holding `content` gives: defaults, then
/// each known key in line order.
pub fn settings_from_ini(content: &[u8]) -> (r: GameSettings)
    ensures
        r == settings_from_ini_spec(content@),
{
    let lines = split_ini_lines(content);
    let ghost ls = lviews(lines@);
    let mut st = GameSettings::default();
    let mut i: usize = 0;
    while i < lines.len()
        invariant
            ls == lviews(lines@),
            ls == ini_lines(content@),
            i <= ls.len(),
            st == settings_after(default_settings(), ls.subrange(0, i as int)),
        decreases ls.len() - i,
    {
        assert(ls[i as int] == lines@[i as int]@);
        st = apply_ini_line(st, lines[i].as_slice());
        assert(ls.subrange(0, i + 1).drop_last() =~= ls.subrange(0, i as int));
        i = i + 1;
    }
    assert(ls.subrange(0, i as int) =~= ls);
    st
}

fn decimal_bytes(n: u32) -> (r: Vec<u8>)
    ensures
        r@ == decimal(n as nat),
{
    let mut r: Vec<u8> = Vec::new();
    push_decimal(&mut r, n);
    assert(r@ =~= decimal(n as nat));
    r
}

fn flag_bytes(b: bool) -> (r: Vec<u8>)
    ensures
        r@ == flag(b),
{
    let r: Vec<u8> = if b { vec![0x31u8] } else { vec![0x30u8] };
    assert(r@ =~= flag(b));
    r
}

fn volume_bytes(b: bool) -> (r: Vec<u8>)
    ensures
        r@ == volume(b),
{
    let r: Vec<u8> = if b { vec![0x31u8, 0x30, 0x30] } else { vec![0x30u8] };
    assert(r@ =~= volume(b));
    r
}

/// `content` with the seven settings keys set for `s`.
pub fn modify_ini(content: &[u8], s: &GameSettings) -> (r: Vec<u8>)
    ensures
        r@ == modified_ini(content@, *s),
{
    let mut lines = split_ini_lines(content);
    update_ini_value(&mut lines, key_width_bytes().as_slice(), decimal_bytes(s.resolution_width).as_slice());
    update_ini_value(&mut lines, key_height_bytes().as_slice(), decimal_bytes(s.resolution_height).as_slice());
    update_ini_value(&mut lines, key_screenmode_bytes().as_slice(), flag_bytes(s.fullscreen).as_slice());
    update_ini_value(&mut lines, key_soundvolume_bytes().as_slice(), volume_bytes(s.sound_enabled).as_slice());
    update_ini_value(&mut lines, key_bgmvolume_bytes().as_slice(), volume_bytes(s.bgm_enabled).as_slice());
    update_ini_value(&mut lines, key_isfullscreenmode_bytes().as_slice(), flag_bytes(s.fullscreen).as_slice());
    update_ini_value(&mut lines, key_mouseexclusive_bytes().as_slice(), flag_bytes(!s.mouse_freedom).as_slice());
    join_lines(&lines)
}

fn push_setting(out: &mut Vec<u8>, key: &[u8], value: &[u8])
    ensures
        final(out)@ == old(out)@ + key@ + seq![0x3du8] + value@ + seq![0x0au8],
{
    append_bytes(out, key);
    out.push(0x3d);
    append_bytes(out, value);
    out.push(0x0a);
    assert(final(out)@ =~= old(out)@ + key@ + seq![0x3du8] + value@ + seq![0x0au8]);
}

/// A fresh `DATA.INI` for `s`.
pub fn new_ini(s: &GameSettings) -> (r: Vec<u8>)
    ensures
        r@ == fresh_ini(*s),
{
    let mut out: Vec<u8> = vec![0x5bu8, 0x53u8, 0x45u8, 0x54u8, 0x54u8, 0x49u8, 0x4eu8, 0x47u8, 0x5du8, 0x0au8];
    assert(out@ =~= seq![0x5bu8, 0x53u8, 0x45u8, 0x54u8, 0x54u8, 0x49u8, 0x4eu8, 0x47u8, 0x5du8, 0x0au8]);
    push_setting(&mut out, key_width_bytes().as_slice(), decimal_bytes(s.resolution_width).as_slice());
    push_setting(&mut out, key_height_bytes().as_slice(), decimal_bytes(s.resolution_height).as_slice());
    push_setting(&mut out, key_screenmode_bytes().as_slice(), flag_bytes(s.fullscreen).as_slice());
    push_setting(&mut out, key_isfullscreenmode_bytes().as_slice(), flag_bytes(s.fullscreen).as_slice());
    push_setting(&mut out, key_soundvolume_bytes().as_slice(), volume_bytes(s.sound_enabled).as_slice());
    push_setting(&mut out, key_bgmvolume_bytes().as_slice(), volume_bytes(s.bgm_enabled).as_slice());
    push_setting(&mut out, key_mouseexclusive_bytes().as_slice(), flag_bytes(!s.mouse_freedom).as_slice());
    let tail: [u8; 29] = [0x53u8, 0x50u8, 0x52u8, 0x49u8, 0x54u8, 0x45u8, 0x3du8, 0x33u8, 0x0au8, 0x54u8, 0x45u8, 0x58u8, 0x54u8, 0x55u8, 0x52u8, 0x45u8, 0x3du8, 0x33u8, 0x0au8, 0x44u8, 0x49u8, 0x47u8, 0x49u8, 0x54u8, 0x41u8, 0x4cu8, 0x3du8, 0x30u8, 0x0au8];
    assert(tail@ =~= seq![0x53u8, 0x50u8, 0x52u8, 0x49u8, 0x54u8, 0x45u8, 0x3du8, 0x33u8, 0x0au8, 0x54u8, 0x45u8, 0x58u8, 0x54u8, 0x55u8, 0x52u8, 0x45u8, 0x3du8, 0x33u8, 0x0au8, 0x44u8, 0x49u8, 0x47u8, 0x49u8, 0x54u8, 0x41u8, 0x4cu8, 0x3du8, 0x30u8, 0x0au8]);
    append_bytes(&mut out, tail.as_slice());
    out
}

/// Reads and writes the client's `DATA.INI` in a game directory. The file
/// itself is read and written by the caller, who passes its contents in.
#[derive(Debug)]
pub struct GameSettingsManager {
    pub game_directory: String,
}

impl GameSettingsManager {
    /// A manager for the client installed in `game_directory`.
    pub fn new(game_directory: &str) -> (r: GameSettingsManager)
        ensures
            r.game_directory@ == game_directory@,
    {
        GameSettingsManager { game_directory: game_directory.to_owned() }
    }

    /// The new contents of `DATA.INI` for `settings`: the existing file with
    /// the keys set, or a fresh file where there is none.
    pub fn apply_settings(&self, existing: Option<&[u8]>, settings: &GameSettings) -> (r: Vec<u8>)
        ensures
            match existing {
                Some(c) => r@ == modified_ini(c@, *settings),
                None => r@ == fresh_ini(*settings),
            },
    {
        match existing {
            Some(c) => modify_ini(c, settings),
            None => new_ini(settings),
        }
    }

    /// The settings that `DATA.INI` gives, or the defaults where there is no
    /// such file.
    pub fn load_settings(&self, ini: Option<&[u8]>) -> (r: GameSettings)
        ensures
            match ini {
                Some(c) => r == settings_from_ini_spec(c@),
                None => r == default_settings(),
            },
    {
        match ini {
            Some(c) => settings_from_ini(c),
            None => GameSettings::default(),
        }
    }
}

} // verus!
