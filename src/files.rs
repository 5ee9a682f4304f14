//! Files handed to the engine, and what their names say.

use vstd::prelude::*;
use vstd::string::StrSliceExecFns;

use crate::error::EngineError;
use crate::tile::{Tile, TileView};
use crate::MAX_ZOOM;

verus! {

/// A file written by the host game: its path and its contents.
#[derive(Debug)]
pub struct VirtualFile {
    pub path: String,
    pub data: Vec<u8>,
}

impl VirtualFile {
    /// An empty file at `path`.
    pub fn new(path: String) -> (r: VirtualFile)
        ensures
            r.path@ == path@,
            r.data@.len() == 0,
    {
        VirtualFile { path, data: Vec::new() }
    }
}

/// What a file is, going by its name.
#[derive(Debug)]
pub enum FileKind {
    /// The manifest, `info.json`.
    Manifest,
    /// The image of a chunk, as the tile it becomes at the chunk level.
    Chunk(Tile),
    /// Anything else; it is ignored.
    Other,
}

/// The part of a path after its last `/`.
pub open spec fn file_name(p: Seq<char>) -> Seq<char>
    decreases p.len(),
{
    if p.len() == 0 {
        p
    } else if p.last() == '/' {
        Seq::empty()
    } else {
        file_name(p.drop_last()).push(p.last())
    }
}

/// The index of the first comma of `s`, if any.
pub open spec fn first_comma(s: Seq<char>) -> Option<int>
    decreases s.len(),
{
    if s.len() == 0 {
        None
    } else if s[0] == ',' {
        Some(0)
    } else {
        match first_comma(s.drop_first()) {
            Some(i) => Some(i + 1),
            None => None,
        }
    }
}

pub open spec fn is_digit(c: char) -> bool {
    '0' <= c <= '9'
}

pub open spec fn digit_value(c: char) -> int {
    c as int - '0' as int
}

/// The value of a string of decimal digits.
pub open spec fn digits_value(s: Seq<char>) -> int
    decreases s.len(),
{
    if s.len() == 0 {
        0
    } else {
        10 * digits_value(s.drop_last()) + digit_value(s.last())
    }
}

pub open spec fn all_digits(s: Seq<char>) -> bool {
    s.len() > 0 && forall|i: int| 0 <= i < s.len() ==> is_digit(#[trigger] s[i])
}

/// The signed decimal integer that `s` spells, with an optional `+` or `-`,
/// where it fits 32 bits.
pub open spec fn parse_i32(s: Seq<char>) -> Option<i32> {
    let neg = s.len() > 0 && s[0] == '-';
    let body = if s.len() > 0 && (s[0] == '-' || s[0] == '+') { s.drop_first() } else { s };
    if !all_digits(body) {
        None
    } else {
        let v = if neg { -digits_value(body) } else { digits_value(body) };
        if i32::MIN <= v <= i32::MAX { Some(v as i32) } else { None }
    }
}

/// The surface and chunk coordinates that a chunk file's stem
/// `<surface>,<x>,<y>` spells: exactly two commas, two integers.
pub open spec fn parse_chunk_stem(stem: Seq<char>) -> Option<(Seq<char>, i32, i32)> {
    match first_comma(stem) {
        Some(i) => {
            let rest = stem.subrange(i + 1, stem.len() as int);
            match first_comma(rest) {
                Some(j) => {
                    let xs = rest.subrange(0, j);
                    let ys = rest.subrange(j + 1, rest.len() as int);
                    if first_comma(ys) is None && parse_i32(xs) is Some && parse_i32(ys) is Some {
                        Some((stem.subrange(0, i), parse_i32(xs)->0, parse_i32(ys)->0))
                    } else {
                        None
                    }
                },
                None => None,
            }
        },
        None => None,
    }
}

pub open spec fn has_suffix(s: Seq<char>, suffix: Seq<char>) -> bool {
    s.len() >= suffix.len() && s.subrange(s.len() - suffix.len(), s.len() as int) == suffix
}

/// What a file is, as a value.
pub ghost enum FileKindView {
    Manifest,
    Chunk(TileView),
    Other,
}

impl FileKind {
    pub open spec fn view(&self) -> FileKindView {
        match self {
            FileKind::Manifest => FileKindView::Manifest,
            FileKind::Chunk(t) => FileKindView::Chunk(t@),
            FileKind::Other => FileKindView::Other,
        }
    }
}

/// How a file is classified by its name: the manifest is `info.json`; a name
/// ending in `.bmp` or `.png` is a chunk image, whose stem must parse.
pub open spec fn classify_spec(path: Seq<char>) -> Result<FileKindView, EngineError> {
    let name = file_name(path);
    if name == seq!['i', 'n', 'f', 'o', '.', 'j', 's', 'o', 'n'] {
        Ok(FileKindView::Manifest)
    } else if has_suffix(name, seq!['.', 'b', 'm', 'p']) || has_suffix(name, seq!['.', 'p', 'n', 'g']) {
        match parse_chunk_stem(name.subrange(0, name.len() - 4)) {
            Some((surface, x, y)) => Ok(
                FileKindView::Chunk(TileView { surface, zoom: MAX_ZOOM as int, x: x as int, y: y as int }),
            ),
            None => Err(EngineError::MalformedChunkName),
        }
    } else {
        Ok(FileKindView::Other)
    }
}

proof fn lemma_first_comma(s: Seq<char>)
    ensures
        first_comma(s) is Some ==> {
            let i = first_comma(s)->0;
            0 <= i < s.len() && s[i] == ',' && forall|j: int| 0 <= j < i ==> s[j] != ','
        },
        first_comma(s) is None ==> forall|j: int| 0 <= j < s.len() ==> s[j] != ',',
    decreases s.len(),
{
    if s.len() > 0 && s[0] != ',' {
        lemma_first_comma(s.drop_first());
        match first_comma(s.drop_first()) {
            Some(i) => {
                assert forall|j: int| 0 <= j < i + 1 implies s[j] != ',' by {
                    if j > 0 {
                        assert(s[j] == s.drop_first()[j - 1]);
                    }
                }
            },
            None => {
                assert forall|j: int| 0 <= j < s.len() implies s[j] != ',' by {
                    if j > 0 {
                        assert(s[j] == s.drop_first()[j - 1]);
                    }
                }
            },
        }
    }
}

proof fn lemma_file_name(p: Seq<char>, k: int)
    requires
        0 <= k <= p.len(),
        forall|j: int| k <= j < p.len() ==> p[j] != '/',
        k == 0 || p[k - 1] == '/',
    ensures
        file_name(p) == p.subrange(k, p.len() as int),
    decreases p.len(),
{
    if p.len() > k {
        lemma_file_name(p.drop_last(), k);
        assert(p.subrange(k, p.len() as int) =~= p.drop_last().subrange(k, p.len() - 1).push(p.last()));
    } else if p.len() > 0 {
        assert(p.last() == '/');
    }
}

proof fn lemma_digits_prefix(s: Seq<char>, k: int)
    requires
        0 <= k <= s.len(),
        forall|i: int| 0 <= i < s.len() ==> is_digit(#[trigger] s[i]),
    ensures
        digits_value(s) >= digits_value(s.subrange(0, k)),
        digits_value(s.subrange(0, k)) >= 0,
    decreases s.len(),
{
    if k < s.len() {
        lemma_digits_prefix(s.drop_last(), k);
        assert(s.drop_last().subrange(0, k) =~= s.subrange(0, k));
        assert(is_digit(s.last()));
    } else {
        assert(s.subrange(0, k) =~= s);
        if s.len() > 0 {
            lemma_digits_prefix(s.drop_last(), k - 1);
            assert(s.drop_last().subrange(0, k - 1) =~= s.drop_last());
            assert(is_digit(s.last()));
        }
    }
}

/// The characters of `s`.
fn chars_of(s: &str) -> (r: Vec<char>)
    ensures
        r@ == s@,
{
    let n = s.unicode_len();
    let mut r: Vec<char> = Vec::new();
    let mut i: usize = 0;
    while i < n
        invariant
            n == s@.len(),
            i <= n,
            r@ == s@.subrange(0, i as int),
        decreases n - i,
    {
        r.push(s.get_char(i));
        i += 1;
        assert(r@ =~= s@.subrange(0, i as int));
    }
    assert(r@ =~= s@);
    r
}

/// The index of the first comma of `cs[from..to]`, counted from `from`.
fn find_comma(cs: &Vec<char>, from: usize, to: usize) -> (r: Option<usize>)
    requires
        from <= to <= cs@.len(),
    ensures
        r matches Some(i) ==> from <= i < to && first_comma(cs@.subrange(from as int, to as int))
            == Some(i - from),
        r is None ==> first_comma(cs@.subrange(from as int, to as int)) is None,
{
    let ghost sub = cs@.subrange(from as int, to as int);
    proof {
        lemma_first_comma(sub);
    }
    let mut i: usize = from;
    while i < to
        invariant
            from <= i <= to <= cs@.len(),
            sub == cs@.subrange(from as int, to as int),
            forall|j: int| from <= j < i ==> cs@[j] != ',',
        decreases to - i,
    {
        if cs[i] == ',' {
            proof {
                let ii = i - from;
                lemma_first_comma(sub);
                assert(sub[ii] == ',');
                if first_comma(sub) is Some {
                    let f = first_comma(sub)->0;
                    assert(sub[f] == cs@[f + from]);
                    if f < ii {
                        assert(cs@[f + from] != ',');
                    }
                    if f > ii {
                        assert(sub[ii] != ',');
                    }
                }
            }
            return Some(i);
        }
        i += 1;
    }
    proof {
        lemma_first_comma(sub);
        if first_comma(sub) is Some {
            let f = first_comma(sub)->0;
            assert(sub[f] == cs@[f + from]);
        }
    }
    None
}

/// The signed decimal integer spelled by `cs[from..to]`, where it fits 32 bits.
fn parse_i32_at(cs: &Vec<char>, from: usize, to: usize) -> (r: Option<i32>)
    requires
        from <= to <= cs@.len(),
    ensures
        r == parse_i32(cs@.subrange(from as int, to as int)),
{
    let ghost s = cs@.subrange(from as int, to as int);
    let mut start = from;
    let mut neg = false;
    if from < to && (cs[from] == '-' || cs[from] == '+') {
        neg = cs[from] == '-';
        start = from + 1;
    }
    let ghost body = cs@.subrange(start as int, to as int);
    assert(body == (if s.len() > 0 && (s[0] == '-' || s[0] == '+') { s.drop_first() } else { s }));
    assert(neg == (s.len() > 0 && s[0] == '-'));
    if start == to {
        return None;
    }
    let mut acc: i64 = 0;
    let mut i: usize = start;
    while i < to
        invariant
            from <= start < to <= cs@.len(),
            start <= i <= to,
            body == cs@.subrange(start as int, to as int),
            s == cs@.subrange(from as int, to as int),
            body == (if s.len() > 0 && (s[0] == '-' || s[0] == '+') { s.drop_first() } else { s }),
            neg == (s.len() > 0 && s[0] == '-'),
            forall|j: int| start <= j < i ==> is_digit(#[trigger] cs@[j]),
            acc as int == digits_value(cs@.subrange(start as int, i as int)),
            0 <= acc <= 0x8000_0000,
        decreases to - i,
    {
        let c = cs[i];
        if !('0' <= c && c <= '9') {
            assert(body[i - start] == cs@[i as int]);
            assert(!is_digit(body[i - start]));
            assert(!all_digits(body));
            return None;
        }
        let d = (c as u32 - '0' as u32) as i64;
        assert(cs@.subrange(start as int, i + 1).drop_last() =~= cs@.subrange(start as int, i as int));
        let next = acc * 10 + d;
        if next > 0x8000_0000 {
            proof {
                if forall|j: int| i + 1 <= j < to ==> is_digit(#[trigger] cs@[j]) {
                    assert forall|j: int| 0 <= j < body.len() implies is_digit(#[trigger] body[j]) by {
                        assert(body[j] == cs@[start + j]);
                    }
                    lemma_digits_prefix(body, (i + 1 - start) as int);
                    assert(body.subrange(0, (i + 1 - start) as int) =~= cs@.subrange(start as int, i + 1));
                } else {
                    let j = choose|j: int| i + 1 <= j < to && !is_digit(#[trigger] cs@[j]);
                    assert(body[j - start] == cs@[j]);
                    assert(!is_digit(body[j - start]));
                    assert(!all_digits(body));
                }
            }
            return None;
        }
        acc = next;
        i += 1;
    }
    assert(cs@.subrange(start as int, i as int) =~= body);
    assert(all_digits(body)) by {
        assert forall|j: int| 0 <= j < body.len() implies is_digit(#[trigger] body[j]) by {
            assert(body[j] == cs@[start + j]);
        }
    }
    if neg {
        Some((-acc) as i32)
    } else if acc <= 0x7fff_ffff {
        Some(acc as i32)
    } else {
        None
    }
}

/// Whether `cs[from..to]` equals `lit`.
fn equals_at(cs: &Vec<char>, from: usize, to: usize, lit: &Vec<char>) -> (r: bool)
    requires
        from <= to <= cs@.len(),
    ensures
        r == (cs@.subrange(from as int, to as int) == lit@),
{
    if to - from != lit.len() {
        assert(cs@.subrange(from as int, to as int).len() != lit@.len());
        return false;
    }
    let mut i: usize = 0;
    while i < lit.len()
        invariant
            from <= to <= cs@.len(),
            to - from == lit@.len(),
            i <= lit@.len(),
            forall|j: int| 0 <= j < i ==> cs@[from + j] == lit@[j],
        decreases lit@.len() - i,
    {
        if cs[from + i] != lit[i] {
            assert(cs@.subrange(from as int, to as int)[i as int] != lit@[i as int]);
            return false;
        }
        i += 1;
    }
    assert(cs@.subrange(from as int, to as int) =~= lit@);
    true
}

/// Reads `<surface>,<x>,<y>` from `cs[from..to]`, the characters of `path`,
/// as the tile of that chunk at the chunk level.
fn parse_stem(path: &str, cs: &Vec<char>, k: usize, e: usize) -> (r: Option<Tile>)
    requires
        cs@ == path@,
        k <= e <= cs@.len(),
    ensures
        match parse_chunk_stem(cs@.subrange(k as int, e as int)) {
            Some((surface, x, y)) => r matches Some(t) && t@ == (TileView {
                surface,
                zoom: MAX_ZOOM as int,
                x: x as int,
                y: y as int,
            }),
            None => r is None,
        },
{
    let ghost stem = cs@.subrange(k as int, e as int);
    let i1 = match find_comma(cs, k, e) {
        Some(i) => i,
        None => {
            return None;
        },
    };
    let ghost rest = stem.subrange(i1 - k + 1, stem.len() as int);
    assert(rest =~= cs@.subrange(i1 + 1, e as int));
    let i2 = match find_comma(cs, i1 + 1, e) {
        Some(i) => i,
        None => {
            return None;
        },
    };
    let ghost j = i2 - (i1 + 1);
    assert(rest.subrange(0, j) =~= cs@.subrange(i1 + 1, i2 as int));
    assert(rest.subrange(j + 1, rest.len() as int) =~= cs@.subrange(i2 + 1, e as int));
    if find_comma(cs, i2 + 1, e).is_some() {
        return None;
    }
    let x = match parse_i32_at(cs, i1 + 1, i2) {
        Some(v) => v,
        None => {
            return None;
        },
    };
    let y = match parse_i32_at(cs, i2 + 1, e) {
        Some(v) => v,
        None => {
            return None;
        },
    };
    let surface = path.substring_char(k, i1).to_owned();
    assert(surface@ =~= stem.subrange(0, i1 - k));
    Some(Tile::new(surface, MAX_ZOOM, x, y))
}

/// Tells the manifest, a chunk image and any other file apart by the file's
/// name, and reads a chunk's surface and coordinates from its name.
pub fn classify(path: &String) -> (r: Result<FileKind, EngineError>)
    ensures
        match classify_spec(path@) {
            Ok(v) => r matches Ok(k) && k.view() == v,
            Err(e) => r == Err::<FileKind, EngineError>(e),
        },
{
    let cs = chars_of(path.as_str());
    let n = cs.len();
    let mut k: usize = n;
    while k > 0 && cs[k - 1] != '/'
        invariant
            k <= n == cs@.len(),
            forall|j: int| k <= j < n ==> cs@[j] != '/',
        decreases k,
    {
        k -= 1;
    }
    proof {
        lemma_file_name(cs@, k as int);
    }
    let ghost name = cs@.subrange(k as int, n as int);
    assert(file_name(path@) == name);
    let manifest = chars_of("info.json");
    let bmp = chars_of(".bmp");
    let png = chars_of(".png");
    proof {
        reveal_strlit("info.json");
        reveal_strlit(".bmp");
        reveal_strlit(".png");
        assert(manifest@ =~= seq!['i', 'n', 'f', 'o', '.', 'j', 's', 'o', 'n']);
        assert(bmp@ =~= seq!['.', 'b', 'm', 'p']);
        assert(png@ =~= seq!['.', 'p', 'n', 'g']);
    }
    if equals_at(&cs, k, n, &manifest) {
        return Ok(FileKind::Manifest);
    }
    if n - k < 4 {
        return Ok(FileKind::Other);
    }
    let e = n - 4;
    assert(name.subrange(name.len() - 4, name.len() as int) =~= cs@.subrange(e as int, n as int));
    if !equals_at(&cs, e, n, &bmp) && !equals_at(&cs, e, n, &png) {
        return Ok(FileKind::Other);
    }
    let ghost stem = name.subrange(0, name.len() - 4);
    assert(stem =~= cs@.subrange(k as int, e as int));
    match parse_stem(path.as_str(), &cs, k, e) {
        Some(t) => Ok(FileKind::Chunk(t)),
        None => Err(EngineError::MalformedChunkName),
    }
}

} // verus!
