//! Scanning device source text for `extern "C"` kernel symbols.
//!
//! The scanner walks the text piece by piece: each occurrence of the word
//! `extern` opens a piece that runs to the next occurrence or to the end.  A
//! piece yields a symbol when, after leading whitespace, it begins with
//! `"C"` and holds a `(`; the head is the trimmed text before that `(`, and
//! the symbol name is what follows the last whitespace of the head.  A head
//! holding both `__global__` and `void` names a global kernel; one holding
//! `__device__` names a device function; a head without whitespace yields
//! nothing.

use vstd::prelude::*;

verus! {

/// A kernel symbol found in device source text: the name of a `__global__`
/// entry function or of a `__device__` function, borrowed from the text.
#[derive(Clone, Copy, PartialEq, Eq, Debug)]
pub enum Symbol<'a> {
    Global(&'a str),
    Device(&'a str),
}

/// The mathematical value of a [`Symbol`]: its kind and the characters of
/// its name.
pub enum SymbolModel {
    Global(Seq<char>),
    Device(Seq<char>),
}

/// The model of one scanned symbol.
pub open spec fn sym_model<'a>(sym: Symbol<'a>) -> SymbolModel {
    match sym {
        Symbol::Global(s) => SymbolModel::Global(s@),
        Symbol::Device(s) => SymbolModel::Device(s@),
    }
}

/// The models of a scanned sequence, in order.
pub open spec fn sym_models(r: Seq<Symbol>) -> Seq<SymbolModel> {
    r.map_values(|sym: Symbol| sym_model(sym))
}

/// Whether `c` is whitespace: the Unicode `White_Space` set.
pub open spec fn white(c: char) -> bool {
    ||| c == ' '
    ||| c == '\t'
    ||| c == '\n'
    ||| c == '\u{b}'
    ||| c == '\u{c}'
    ||| c == '\r'
    ||| c == '\u{85}'
    ||| c == '\u{a0}'
    ||| c == '\u{1680}'
    ||| ('\u{2000}' <= c && c <= '\u{200a}')
    ||| c == '\u{2028}'
    ||| c == '\u{2029}'
    ||| c == '\u{202f}'
    ||| c == '\u{205f}'
    ||| c == '\u{3000}'
}

/// Whether the word `w` occurs in `s` starting at position `i`.
pub open spec fn word_at(s: Seq<char>, i: int, w: Seq<char>) -> bool {
    &&& 0 <= i
    &&& i + w.len() <= s.len()
    &&& forall|k: int| 0 <= k < w.len() ==> s[i + k] == #[trigger] w[k]
}

/// Position of the first occurrence of `w` at or after `pos` that ends by
/// `hi`; `-1` if there is none.
pub open spec fn find_word(s: Seq<char>, w: Seq<char>, pos: int, hi: int) -> int
    decreases hi - pos,
{
    if pos < 0 || hi > s.len() || pos + w.len() > hi {
        -1
    } else if word_at(s, pos, w) {
        pos
    } else {
        find_word(s, w, pos + 1, hi)
    }
}

/// What `find_word` finds: the first occurrence, or that there is none.
pub proof fn lemma_find_word(s: Seq<char>, w: Seq<char>, pos: int, hi: int)
    requires
        0 <= pos,
        hi <= s.len(),
    ensures
        ({
            let x = find_word(s, w, pos, hi);
            &&& x == -1 ==> forall|i: int|
                pos <= i && i + w.len() <= hi ==> !word_at(s, i, w)
            &&& x >= 0 ==> pos <= x && x + w.len() <= hi && word_at(s, x, w) && forall|i: int|
                pos <= i < x ==> !word_at(s, i, w)
        }),
    decreases hi - pos,
{
    if hi > s.len() || pos + w.len() > hi {
    } else if word_at(s, pos, w) {
    } else {
        lemma_find_word(s, w, pos + 1, hi);
    }
}

/// Whether `w` occurs somewhere in `s[lo..hi]`.
pub open spec fn contains_word(s: Seq<char>, lo: int, hi: int, w: Seq<char>) -> bool {
    find_word(s, w, lo, hi) >= 0
}

/// First position in `[pos, hi)` holding a non-whitespace character; `hi` if
/// all are whitespace.
pub open spec fn skip_white(s: Seq<char>, pos: int, hi: int) -> int
    decreases hi - pos,
{
    if pos < 0 || pos >= hi || hi > s.len() {
        hi
    } else if white(s[pos]) {
        skip_white(s, pos + 1, hi)
    } else {
        pos
    }
}

/// End of `s[pos..hi]` once trailing whitespace is dropped: the position
/// after its last non-whitespace character, or `pos` if all are whitespace.
pub open spec fn rtrim(s: Seq<char>, pos: int, hi: int) -> int
    decreases hi - pos,
{
    if pos < 0 || hi <= pos || hi > s.len() {
        pos
    } else if white(s[hi - 1]) {
        rtrim(s, pos, hi - 1)
    } else {
        hi
    }
}

/// Position of the last whitespace character in `s[lo..hi]`; `-1` if there
/// is none.
pub open spec fn last_white(s: Seq<char>, lo: int, hi: int) -> int
    decreases hi - lo,
{
    if lo < 0 || hi <= lo || hi > s.len() {
        -1
    } else if white(s[hi - 1]) {
        hi - 1
    } else {
        last_white(s, lo, hi - 1)
    }
}

/// The symbol a piece `s[lo..hi]` yields.  After leading whitespace the
/// piece must begin with `"C"` and hold a `(`; the head is the trimmed text
/// before the `(`, and the name follows the head's last whitespace.  A head
/// with both `__global__` and `void` yields a global symbol, one with
/// `__device__` a device symbol, any other — or one without whitespace —
/// none.
pub open spec fn spec_piece(s: Seq<char>, lo: int, hi: int) -> Option<SymbolModel> {
    let qc = "\"C\""@;
    let a = skip_white(s, lo, hi);
    if a + qc.len() <= hi && word_at(s, a, qc) {
        let f = a + qc.len();
        let p = find_word(s, "("@, f, hi);
        if p >= 0 {
            let h1 = skip_white(s, f, p);
            let h2 = rtrim(s, h1, p);
            let lw = last_white(s, h1, h2);
            if contains_word(s, h1, h2, "__global__"@) && contains_word(s, h1, h2, "void"@) {
                if lw >= 0 {
                    Some(SymbolModel::Global(s.subrange(lw + 1, h2)))
                } else {
                    None
                }
            } else if contains_word(s, h1, h2, "__device__"@) {
                if lw >= 0 {
                    Some(SymbolModel::Device(s.subrange(lw + 1, h2)))
                } else {
                    None
                }
            } else {
                None
            }
        } else {
            None
        }
    } else {
        None
    }
}

/// A piece's symbol as a sequence: one element or none.
pub open spec fn opt_to_seq(o: Option<SymbolModel>) -> Seq<SymbolModel> {
    match o {
        Some(m) => seq![m],
        None => seq![],
    }
}

/// The symbols of the pieces from `pos` on, where `pos` sits just past an
/// occurrence of `extern`: the current piece runs to the next occurrence or
/// to the end of the text.
pub open spec fn spec_tail(s: Seq<char>, pos: int) -> Seq<SymbolModel>
    decreases s.len() - pos,
{
    let m = find_word(s, "extern"@, pos, s.len() as int);
    if m >= pos && m + 6 <= s.len() {
        opt_to_seq(spec_piece(s, pos, m)) + spec_tail(s, m + 6)
    } else {
        opt_to_seq(spec_piece(s, pos, s.len() as int))
    }
}

/// All symbols of the text: the pieces after each occurrence of `extern`,
/// in order.  Text before the first occurrence yields nothing.
pub open spec fn spec_search(s: Seq<char>) -> Seq<SymbolModel> {
    let m = find_word(s, "extern"@, 0, s.len() as int);
    if m >= 0 && m + 6 <= s.len() {
        spec_tail(s, m + 6)
    } else {
        seq![]
    }
}


/// Whether `c` is whitespace, as [`white`] defines it.
fn is_white(c: char) -> (b: bool)
    ensures
        b == white(c),
{
    c == ' ' || c == '\t' || c == '\n' || c == '\u{b}' || c == '\u{c}' || c == '\r' || c == '\u{85}'
        || c == '\u{a0}' || c == '\u{1680}' || ('\u{2000}' <= c && c <= '\u{200a}') || c
        == '\u{2028}' || c == '\u{2029}' || c == '\u{202f}' || c == '\u{205f}' || c == '\u{3000}'
}

/// Whether the word `w` occurs in `s` at position `i`.
fn word_at_exec(s: &str, i: usize, w: &str) -> (b: bool)
    requires
        i + w@.len() <= s@.len(),
        i + w@.len() <= usize::MAX,
    ensures
        b == word_at(s@, i as int, w@),
{
    let wn = w.unicode_len();
    let mut k: usize = 0;
    while k < wn
        invariant
            k <= wn,
            wn == w@.len(),
            i + wn <= s@.len(),
            i + wn <= usize::MAX,
            forall|k2: int| 0 <= k2 < k ==> s@[i + k2] == #[trigger] w@[k2],
        decreases wn - k,
    {
        if s.get_char(i + k) != w.get_char(k) {
            return false;
        }
        k = k + 1;
    }
    true
}

/// First occurrence of `w` at or after `pos` ending by `hi`, as
/// [`find_word`] defines it.
fn find_word_exec(s: &str, w: &str, pos: usize, hi: usize) -> (r: Option<usize>)
    requires
        pos <= hi,
        hi <= s@.len(),
    ensures
        r matches Some(x) ==> find_word(s@, w@, pos as int, hi as int) == x,
        r is None ==> find_word(s@, w@, pos as int, hi as int) == -1,
    decreases hi - pos,
{
    let wn = w.unicode_len();
    if wn > hi - pos {
        return None;
    }
    if word_at_exec(s, pos, w) {
        Some(pos)
    } else {
        find_word_exec(s, w, pos + 1, hi)
    }
}

/// First non-whitespace position, as [`skip_white`] defines it.
fn skip_white_exec(s: &str, pos: usize, hi: usize) -> (r: usize)
    requires
        pos <= hi,
        hi <= s@.len(),
    ensures
        r == skip_white(s@, pos as int, hi as int),
        pos <= r <= hi,
    decreases hi - pos,
{
    if pos >= hi {
        return hi;
    }
    if is_white(s.get_char(pos)) {
        skip_white_exec(s, pos + 1, hi)
    } else {
        pos
    }
}

/// End position after dropping trailing whitespace, as [`rtrim`] defines it.
fn rtrim_exec(s: &str, pos: usize, hi: usize) -> (r: usize)
    requires
        pos <= hi,
        hi <= s@.len(),
    ensures
        r == rtrim(s@, pos as int, hi as int),
        pos <= r <= hi,
    decreases hi - pos,
{
    if hi <= pos {
        return pos;
    }
    if is_white(s.get_char(hi - 1)) {
        rtrim_exec(s, pos, hi - 1)
    } else {
        hi
    }
}

/// Last whitespace position in `[lo, hi)`, as [`last_white`] defines it.
fn last_white_exec(s: &str, lo: usize, hi: usize) -> (r: Option<usize>)
    requires
        lo <= hi,
        hi <= s@.len(),
    ensures
        r matches Some(x) ==> last_white(s@, lo as int, hi as int) == x && lo <= x < hi,
        r is None ==> last_white(s@, lo as int, hi as int) == -1,
    decreases hi - lo,
{
    if hi <= lo {
        return None;
    }
    if is_white(s.get_char(hi - 1)) {
        Some(hi - 1)
    } else {
        last_white_exec(s, lo, hi - 1)
    }
}

/// The symbol the piece `s[lo..hi]` yields, as [`spec_piece`] defines it.
fn process_piece<'a>(s: &'a str, lo: usize, hi: usize) -> (r: Option<Symbol<'a>>)
    requires
        lo <= hi,
        hi <= s@.len(),
    ensures
        ({
            let m = spec_piece(s@, lo as int, hi as int);
            match r {
                Some(sym) => m == Some(sym_model(sym)),
                None => m is None,
            }
        }),
{
    let qc = "\"C\"";
    let a = skip_white_exec(s, lo, hi);
    let qn = qc.unicode_len();
    if qn > hi - a {
        return None;
    }
    if !word_at_exec(s, a, qc) {
        return None;
    }
    let f = a + qn;
    let p = match find_word_exec(s, "(", f, hi) {
        Some(p) => p,
        None => {
            return None;
        },
    };
    proof {
        lemma_find_word(s@, "("@, f as int, hi as int);
    }
    let h1 = skip_white_exec(s, f, p);
    let h2 = rtrim_exec(s, h1, p);
    let has_global = match find_word_exec(s, "__global__", h1, h2) {
        Some(_) => true,
        None => false,
    };
    let has_void = match find_word_exec(s, "void", h1, h2) {
        Some(_) => true,
        None => false,
    };
    let has_device = match find_word_exec(s, "__device__", h1, h2) {
        Some(_) => true,
        None => false,
    };
    let lw = last_white_exec(s, h1, h2);
    if has_global && has_void {
        match lw {
            Some(x) => Some(Symbol::Global(s.substring_char(x + 1, h2))),
            None => None,
        }
    } else if has_device {
        match lw {
            Some(x) => Some(Symbol::Device(s.substring_char(x + 1, h2))),
            None => None,
        }
    } else {
        None
    }
}

/// The symbols of the pieces from `pos` on, as [`spec_tail`] defines them.
fn search_tail<'a>(code: &'a str, pos: usize, n: usize) -> (r: Vec<Symbol<'a>>)
    requires
        pos <= n,
        n == code@.len(),
    ensures
        sym_models(r@) == spec_tail(code@, pos as int),
    decreases n - pos,
{
    let kw = "extern";
    match find_word_exec(code, kw, pos, n) {
        Some(m) => {
            proof {
                lemma_find_word(code@, kw@, pos as int, n as int);
                reveal_strlit("extern");
            }
            let head = process_piece(code, pos, m);
            let mut rest = search_tail(code, m + 6, n);
            let ghost rest0 = rest@;
            match head {
                Some(sym) => {
                    rest.insert(0, sym);
                    proof {
                        assert(rest@ =~= seq![sym] + rest0);
                        assert(sym_models(rest@) =~= opt_to_seq(
                            spec_piece(code@, pos as int, m as int),
                        ) + spec_tail(code@, m + 6));
                    }
                },
                None => {
                    proof {
                        assert(sym_models(rest@) =~= opt_to_seq(
                            spec_piece(code@, pos as int, m as int),
                        ) + spec_tail(code@, m + 6));
                    }
                },
            }
            rest
        },
        None => {
            let head = process_piece(code, pos, n);
            let mut out: Vec<Symbol<'a>> = Vec::new();
            match head {
                Some(sym) => {
                    out.push(sym);
                },
                None => {},
            }
            proof {
                assert(sym_models(out@) =~= opt_to_seq(
                    spec_piece(code@, pos as int, n as int),
                ));
            }
            out
        },
    }
}

impl<'a> Symbol<'a> {
    /// Scans device source text for kernel symbols: for each occurrence of
    /// `extern` followed (after whitespace) by `"C"`, the declaration head
    /// before the next `(` is examined, and its last whitespace-separated
    /// word is taken as the symbol name — a global kernel when the head
    /// holds `__global__` and `void`, a device function when it holds
    /// `__device__`.
    pub fn search(code: &'a str) -> (r: Vec<Symbol<'a>>)
        ensures
            sym_models(r@) == spec_search(code@),
    {
        let n = code.unicode_len();
        match find_word_exec(code, "extern", 0, n) {
            Some(m) => {
                proof {
                    lemma_find_word(code@, "extern"@, 0, n as int);
                    reveal_strlit("extern");
                }
                search_tail(code, m + 6, n)
            },
            None => {
                Vec::new()
            },
        }
    }
}

} // verus!
