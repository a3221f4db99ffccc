use vstd::prelude::*;

verus! {

/// One active line of a patch list: the archive to fetch and, where given,
/// the expected hex SHA-256 of its bytes.
#[derive(Debug)]
pub struct PatchInfo {
    pub filename: Vec<u8>,
    pub checksum: Option<Vec<u8>>,
}

/// A line of a patch list, as a value.
pub type PatchLine = (Seq<u8>, Option<Seq<u8>>);

impl PatchInfo {
    pub open spec fn view_line(&self) -> PatchLine {
        (
            self.filename@,
            match self.checksum {
                Some(c) => Some(c@),
                None => None,
            },
        )
    }
}

/// ASCII white space: space, tab, line feed, vertical tab, form feed,
/// carriage return.
pub open spec fn is_space(c: u8) -> bool {
    c == 0x20 || c == 0x09 || c == 0x0a || c == 0x0b || c == 0x0c || c == 0x0d
}

/// Number of leading bytes of `s` that are white space (`space`) or not.
pub open spec fn run_len(s: Seq<u8>, space: bool) -> nat
    decreases s.len(),
{
    if s.len() == 0 || is_space(s[0]) != space {
        0
    } else {
        1 + run_len(s.drop_first(), space)
    }
}

/// The white-space separated words of `s`.
pub open spec fn words(s: Seq<u8>) -> Seq<Seq<u8>>
    decreases s.len(),
{
    let a = run_len(s, true) as int;
    if a >= s.len() {
        seq![]
    } else {
        let t = s.subrange(a, s.len() as int);
        let w = run_len(t, false) as int;
        if w == 0 || w > t.len() {
            seq![]
        } else {
            seq![t.subrange(0, w)] + words(t.subrange(w, t.len() as int))
        }
    }
}

/// What one line contributes: nothing when it is blank or a comment (its
/// first word starts with `#`); else its first word, and its second word
/// where there is one.
pub open spec fn line_info(line: Seq<u8>) -> Option<PatchLine> {
    let ws = words(line);
    if ws.len() == 0 || ws[0][0] == 0x23 {
        None
    } else {
        Some((ws[0], if ws.len() > 1 { Some(ws[1]) } else { None }))
    }
}

/// Length of the first line of `s`, its line feed excluded.
pub open spec fn line_len(s: Seq<u8>) -> nat
    decreases s.len(),
{
    if s.len() == 0 || s[0] == 0x0a {
        0
    } else {
        1 + line_len(s.drop_first())
    }
}

/// The entries of a patch list `s`, line by line.
pub open spec fn patch_lines(s: Seq<u8>) -> Seq<PatchLine>
    decreases s.len(),
{
    if s.len() == 0 {
        seq![]
    } else {
        let k = line_len(s) as int;
        let rest = if k < s.len() { s.subrange(k + 1, s.len() as int) } else { seq![] };
        match line_info(s.subrange(0, k)) {
            Some(x) => seq![x] + patch_lines(rest),
            None => patch_lines(rest),
        }
    }
}

pub proof fn lemma_run_len_exact(s: Seq<u8>, k: int, space: bool)
    requires
        0 <= k <= s.len(),
        forall|j: int| 0 <= j < k ==> is_space(s[j]) == space,
        k == s.len() || is_space(s[k]) != space,
    ensures
        run_len(s, space) == k,
    decreases k,
{
    if k > 0 {
        assert forall|j: int| 0 <= j < k - 1 implies is_space(s.drop_first()[j]) == space by {
            assert(s.drop_first()[j] == s[j + 1]);
        }
        if k < s.len() {
            assert(s.drop_first()[k - 1] == s[k]);
        }
        lemma_run_len_exact(s.drop_first(), k - 1, space);
    }
}

pub proof fn lemma_line_len_exact(s: Seq<u8>, k: int)
    requires
        0 <= k <= s.len(),
        forall|j: int| 0 <= j < k ==> s[j] != 0x0a,
        k == s.len() || s[k] == 0x0a,
    ensures
        line_len(s) == k,
    decreases k,
{
    if k > 0 {
        assert forall|j: int| 0 <= j < k - 1 implies s.drop_first()[j] != 0x0a by {
            assert(s.drop_first()[j] == s[j + 1]);
        }
        if k < s.len() {
            assert(s.drop_first()[k - 1] == s[k]);
        }
        lemma_line_len_exact(s.drop_first(), k - 1);
    }
}

pub fn is_space_byte(c: u8) -> (r: bool)
    ensures
        r == is_space(c),
{
    c == 0x20 || c == 0x09 || c == 0x0a || c == 0x0b || c == 0x0c || c == 0x0d
}

/// End of the run of bytes from `from` whose white-space-ness is `space`.
pub fn run_end(s: &[u8], from: usize, space: bool) -> (r: usize)
    requires
        from <= s@.len(),
    ensures
        from <= r <= s@.len(),
        r - from == run_len(s@.subrange(from as int, s@.len() as int), space),
        r < s@.len() ==> is_space(s@[r as int]) != space,
        forall|j: int| from <= j < r ==> is_space(s@[j]) == space,
{
    let mut i = from;
    while i < s.len() && is_space_byte(s[i]) == space
        invariant
            from <= i <= s@.len(),
            forall|j: int| from <= j < i ==> is_space(s@[j]) == space,
        decreases s@.len() - i,
    {
        i = i + 1;
    }
    proof {
        let t = s@.subrange(from as int, s@.len() as int);
        assert forall|j: int| 0 <= j < i - from implies is_space(t[j]) == space by {
            assert(t[j] == s@[from + j]);
        }
        if i < s.len() {
            assert(t[i - from] == s@[i as int]);
        }
        lemma_run_len_exact(t, i - from, space);
    }
    i
}

/// The first word of `line` from `from` on: where it starts and ends, and
/// the words that follow it.
fn next_word(line: &[u8], from: usize) -> (r: Option<(usize, usize)>)
    requires
        from <= line@.len(),
    ensures
        match r {
            None => words(line@.subrange(from as int, line@.len() as int)).len() == 0,
            Some((a, b)) => from <= a < b <= line@.len() && ({
                let ws = words(line@.subrange(from as int, line@.len() as int));
                ws.len() > 0 && ws[0] == line@.subrange(a as int, b as int) && ws.drop_first() == words(
                    line@.subrange(b as int, line@.len() as int),
                )
            }),
        },
{
    let ghost s = line@.subrange(from as int, line@.len() as int);
    let a = run_end(line, from, true);
    if a >= line.len() {
        return None;
    }
    let b = run_end(line, a, false);
    proof {
        let t = s.subrange(a - from, s.len() as int);
        assert(t =~= line@.subrange(a as int, line@.len() as int));
        assert(!is_space(t[0]));
        assert(b > a);
        let w = (b - a) as int;
        assert(t.subrange(0, w) =~= line@.subrange(a as int, b as int));
        assert(t.subrange(w, t.len() as int) =~= line@.subrange(b as int, line@.len() as int));
        let ws = words(s);
        assert(ws == seq![t.subrange(0, w)] + words(t.subrange(w, t.len() as int)));
        assert(ws.drop_first() =~= words(t.subrange(w, t.len() as int)));
    }
    Some((a, b))
}

/// What one line contributes to the list.
fn parse_line(line: &[u8]) -> (r: Option<PatchInfo>)
    ensures
        match line_info(line@) {
            None => r is None,
            Some(x) => r is Some && r->Some_0.view_line() == x,
        },
{
    assert(line@.subrange(0, line@.len() as int) =~= line@);
    match next_word(line, 0) {
        None => None,
        Some((a, b)) => {
            if line[a] == 0x23 {
                return None;
            }
            let filename = vstd::slice::slice_to_vec(vstd::slice::slice_subrange(line, a, b));
            let checksum = match next_word(line, b) {
                None => None,
                Some((c, d)) => Some(vstd::slice::slice_to_vec(vstd::slice::slice_subrange(line, c, d))),
            };
            proof {
                let ws = words(line@);
                assert(ws[0][0] == line@[a as int]);
                if ws.len() > 1 {
                    assert(ws[1] == ws.drop_first()[0]);
                }
            }
            Some(PatchInfo { filename, checksum })
        },
    }
}

/// Reads a patch list: one entry per line that is neither blank nor a
/// comment (first word starting with `#`), made of the line's first word
/// and, where there is one, its second.
pub fn parse_patch_list(content: &[u8]) -> (r: Vec<PatchInfo>)
    ensures
        r@.map_values(|p: PatchInfo| p.view_line()) == patch_lines(content@),
{
    let len = content.len();
    let mut out: Vec<PatchInfo> = Vec::new();
    let mut pos: usize = 0;
    proof {
        assert(content@.subrange(0, len as int) =~= content@);
        assert(Seq::<PatchLine>::empty() + patch_lines(content@) =~= patch_lines(content@));
    }
    while pos < len
        invariant
            len == content@.len(),
            pos <= len,
            patch_lines(content@) == out@.map_values(|p: PatchInfo| p.view_line()) + patch_lines(
                content@.subrange(pos as int, len as int),
            ),
        decreases len - pos,
    {
        let ghost s = content@.subrange(pos as int, len as int);
        let mut end = pos;
        while end < len && content[end] != 0x0a
            invariant
                pos <= end <= len,
                len == content@.len(),
                forall|j: int| pos <= j < end ==> content@[j] != 0x0a,
            decreases len - end,
        {
            end = end + 1;
        }
        proof {
            assert forall|j: int| 0 <= j < end - pos implies s[j] != 0x0a by {
                assert(s[j] == content@[pos + j]);
            }
            if end < len {
                assert(s[end - pos] == content@[end as int]);
            }
            lemma_line_len_exact(s, end - pos);
        }
        let line = vstd::slice::slice_subrange(content, pos, end);
        assert(line@ =~= s.subrange(0, end - pos));
        let ghost acc = out@.map_values(|p: PatchInfo| p.view_line());
        let next = if end < len { end + 1 } else { len };
        proof {
            let rest = if end - pos < s.len() { s.subrange(end - pos + 1, s.len() as int) } else { seq![] };
            assert(rest =~= content@.subrange(next as int, len as int));
        }
        match parse_line(line) {
            Some(info) => {
                let ghost x = info.view_line();
                out.push(info);
                proof {
                    assert(out@.map_values(|p: PatchInfo| p.view_line()) =~= acc.push(x));
                    assert(acc + (seq![x] + patch_lines(content@.subrange(next as int, len as int)))
                        =~= acc.push(x) + patch_lines(content@.subrange(next as int, len as int)));
                }
            },
            None => {},
        }
        pos = next;
    }
    proof {
        assert(content@.subrange(pos as int, len as int) =~= Seq::<u8>::empty());
        let acc = out@.map_values(|p: PatchInfo| p.view_line());
        assert(acc + Seq::<PatchLine>::empty() =~= acc);
    }
    out
}

} // verus!
