use crate::trie::{is_prefix_of, prefix_of_some, TrieNode};
use std::cmp::Ordering;
use vstd::prelude::*;
use vstd::set_lib::{lemma_int_range, lemma_len_subset, set_int_range};

verus! {

/// `a` comes before `b` in the order of character codes; a proper prefix
/// comes before the longer sequence.
pub open spec fn lex_less(a: Seq<char>, b: Seq<char>) -> bool
    decreases a.len(),
{
    if a.len() == 0 {
        b.len() > 0
    } else if b.len() == 0 {
        false
    } else if a[0] == b[0] {
        lex_less(a.drop_first(), b.drop_first())
    } else {
        (a[0] as u32) < (b[0] as u32)
    }
}

/// The order of the result list: longer words first, then words of equal
/// length in lexicographic order.
pub open spec fn ranks_before(a: Seq<char>, b: Seq<char>) -> bool {
    a.len() > b.len() || (a.len() == b.len() && lex_less(a, b))
}

/// No sequence comes before itself.
pub proof fn lemma_lex_irreflexive(a: Seq<char>)
    ensures
        !lex_less(a, a),
    decreases a.len(),
{
    if a.len() > 0 {
        lemma_lex_irreflexive(a.drop_first());
    }
}

/// The lexicographic order is transitive.
pub proof fn lemma_lex_transitive(a: Seq<char>, b: Seq<char>, c: Seq<char>)
    requires
        lex_less(a, b),
        lex_less(b, c),
    ensures
        lex_less(a, c),
    decreases a.len(),
{
    if a.len() > 0 && b.len() > 0 && c.len() > 0 {
        if a[0] == b[0] && b[0] == c[0] {
            lemma_lex_transitive(a.drop_first(), b.drop_first(), c.drop_first());
        } else {
            vstd::utf8::char_u32_cast(a[0], a[0] as u32);
            vstd::utf8::char_u32_cast(c[0], c[0] as u32);
        }
    }
}

/// Two different sequences are ordered one way or the other.
pub proof fn lemma_lex_total(a: Seq<char>, b: Seq<char>)
    requires
        a != b,
    ensures
        lex_less(a, b) || lex_less(b, a),
    decreases a.len(),
{
    if a.len() > 0 && b.len() > 0 {
        if a[0] == b[0] {
            if a.drop_first() == b.drop_first() {
                assert(a =~= seq![a[0]] + a.drop_first());
                assert(b =~= seq![b[0]] + b.drop_first());
            }
            lemma_lex_total(a.drop_first(), b.drop_first());
        } else {
            vstd::utf8::char_u32_cast(a[0], a[0] as u32);
            vstd::utf8::char_u32_cast(b[0], b[0] as u32);
        }
    } else if a.len() == 0 && b.len() == 0 {
        assert(a =~= b);
    }
}

/// Of two sequences at most one comes before the other.
pub proof fn lemma_lex_asymmetric(a: Seq<char>, b: Seq<char>)
    requires
        lex_less(a, b),
    ensures
        !lex_less(b, a),
{
    if lex_less(b, a) {
        lemma_lex_transitive(a, b, a);
        lemma_lex_irreflexive(a);
    }
}

/// The rank order of results is transitive.
pub proof fn lemma_ranks_transitive(a: Seq<char>, b: Seq<char>, c: Seq<char>)
    requires
        ranks_before(a, b),
        ranks_before(b, c),
    ensures
        ranks_before(a, c),
{
    if a.len() == b.len() && b.len() == c.len() {
        lemma_lex_transitive(a, b, c);
    }
}

/// The three-way comparison that matches `lex_less`.
pub open spec fn lex_order(a: Seq<char>, b: Seq<char>) -> Ordering {
    if lex_less(a, b) {
        Ordering::Less
    } else if a == b {
        Ordering::Equal
    } else {
        Ordering::Greater
    }
}

/// Compares two strings character by character.
fn compare_strs(a: &str, b: &str) -> (r: Ordering)
    ensures
        r == lex_order(a@, b@),
{
    let la = a.unicode_len();
    let lb = b.unicode_len();
    let mut i: usize = 0;
    assert(a@.subrange(0, la as int) =~= a@);
    assert(b@.subrange(0, lb as int) =~= b@);
    assert(a@.subrange(0, 0) =~= b@.subrange(0, 0));
    while i < la && i < lb
        invariant
            la == a@.len(),
            lb == b@.len(),
            i <= la,
            i <= lb,
            a@.subrange(0, i as int) == b@.subrange(0, i as int),
            lex_less(a@, b@) == lex_less(a@.subrange(i as int, la as int), b@.subrange(i as int, lb as int)),
            lex_less(b@, a@) == lex_less(b@.subrange(i as int, lb as int), a@.subrange(i as int, la as int)),
            (a@ == b@) == (a@.subrange(i as int, la as int) == b@.subrange(i as int, lb as int)),
        decreases la - i,
    {
        let ca = a.get_char(i);
        let cb = b.get_char(i);
        let ghost sa = a@.subrange(i as int, la as int);
        let ghost sb = b@.subrange(i as int, lb as int);
        assert(sa[0] == ca && sb[0] == cb);
        if ca != cb {
            proof {
                vstd::utf8::char_u32_cast(ca, ca as u32);
                vstd::utf8::char_u32_cast(cb, cb as u32);
                assert(sa != sb);
            }
            if (ca as u32) < (cb as u32) {
                return Ordering::Less;
            } else {
                proof {
                    lemma_lex_asymmetric(b@, a@);
                }
                return Ordering::Greater;
            }
        }
        proof {
            assert(sa.drop_first() =~= a@.subrange(i + 1, la as int));
            assert(sb.drop_first() =~= b@.subrange(i + 1, lb as int));
            assert(a@.subrange(0, i + 1) =~= a@.subrange(0, i as int).push(ca));
            assert(b@.subrange(0, i + 1) =~= b@.subrange(0, i as int).push(cb));
            if sa.drop_first() == sb.drop_first() {
                assert(sa =~= seq![sa[0]] + sa.drop_first());
                assert(sb =~= seq![sb[0]] + sb.drop_first());
            }
        }
        i += 1;
    }
    proof {
        if a@.subrange(i as int, la as int) == b@.subrange(i as int, lb as int) {
            assert(a@ =~= a@.subrange(0, i as int) + a@.subrange(i as int, la as int));
            assert(b@ =~= b@.subrange(0, i as int) + b@.subrange(i as int, lb as int));
        }
        if a@ == b@ {
            lemma_lex_irreflexive(a@);
        }
    }
    if la < lb {
        Ordering::Less
    } else if la == lb {
        proof {
            assert(a@.subrange(i as int, la as int) =~= b@.subrange(i as int, lb as int));
            assert(a@ =~= b@);
            lemma_lex_irreflexive(a@);
        }
        Ordering::Equal
    } else {
        Ordering::Greater
    }
}

/// Relies on `String::push`: appends one character.
#[verifier::external_body]
fn push_char(s: &mut String, c: char)
    ensures
        final(s)@ == old(s)@.push(c),
{
    s.push(c);
}

/// A word found on the grid: its characters, and the (column, row) cell of
/// each of them, in the order of the word.
#[derive(Clone, Debug)]
pub struct Word {
    pub word: String,
    pub characters: Vec<(usize, usize)>,
}

/// Two words are equal when they spell the same characters, whatever their
/// paths.
impl PartialEq for Word {
    fn eq(&self, other: &Word) -> (r: bool) {
        self.word == other.word
    }
}

impl vstd::std_specs::cmp::PartialEqSpecImpl for Word {
    open spec fn obeys_eq_spec() -> bool {
        true
    }

    open spec fn eq_spec(&self, other: &Word) -> bool {
        self.word@ == other.word@
    }
}

impl Word {
    /// An empty word with an empty path.
    pub fn new() -> (r: Self)
        ensures
            r.word@ == Seq::<char>::empty(),
            r.characters@ == Seq::<(usize, usize)>::empty(),
    {
        Word { word: String::new(), characters: Vec::new() }
    }

    /// The number of characters of the word.
    pub fn len(&self) -> (r: usize)
        ensures
            r == self.word@.len(),
    {
        self.word.as_str().unicode_len()
    }

    /// Compares the characters of two words lexicographically.
    pub fn cmp(&self, other: &Word) -> (r: Ordering)
        ensures
            r == lex_order(self.word@, other.word@),
    {
        compare_strs(self.word.as_str(), other.word.as_str())
    }

    /// Appends the characters of `letter`, read at column `x` and row `y`.
    pub fn append(&mut self, letter: &String, x: usize, y: usize)
        ensures
            final(self).word@ == old(self).word@ + letter@,
            final(self).characters@ == old(self).characters@.push((x, y)),
    {
        let text = letter.as_str();
        let n = text.unicode_len();
        let mut i: usize = 0;
        while i < n
            invariant
                text@ == letter@,
                n == letter@.len(),
                i <= n,
                self.word@ == old(self).word@ + letter@.subrange(0, i as int),
                self.characters@ == old(self).characters@,
            decreases n - i,
        {
            let c = text.get_char(i);
            push_char(&mut self.word, c);
            assert(letter@.subrange(0, i + 1) =~= letter@.subrange(0, i as int).push(c));
            assert(self.word@ =~= old(self).word@ + letter@.subrange(0, i + 1));
            i += 1;
        }
        assert(letter@.subrange(0, n as int) =~= letter@);
        self.characters.push((x, y));
    }

    /// Keeps the first `len` characters and the first `len` cells.
    pub fn truncate(&mut self, len: usize)
        ensures
            final(self).word@ == old(self).word@.subrange(
                0,
                if len < old(self).word@.len() { len as int } else { old(self).word@.len() as int },
            ),
            final(self).characters@ == old(self).characters@.subrange(
                0,
                if len < old(self).characters@.len() { len as int } else { old(self).characters@.len() as int },
            ),
    {
        let n = self.word.as_str().unicode_len();
        let keep = if len < n { len } else { n };
        self.word = self.word.as_str().substring_char(0, keep).to_owned();
        self.characters.truncate(len);
    }

    /// A copy of the word and its path.
    fn duplicate(&self) -> (r: Word)
        ensures
            r.word@ == self.word@,
            r.characters@ == self.characters@,
    {
        let mut cells: Vec<(usize, usize)> = Vec::new();
        let mut i: usize = 0;
        while i < self.characters.len()
            invariant
                i <= self.characters@.len(),
                cells@ == self.characters@.subrange(0, i as int),
            decreases self.characters@.len() - i,
        {
            cells.push(self.characters[i]);
            assert(cells@ =~= self.characters@.subrange(0, i + 1));
            i += 1;
        }
        assert(cells@ =~= self.characters@);
        Word { word: self.word.clone(), characters: cells }
    }
}

/// The number of columns of a grid: the length of its first row.
pub open spec fn width(b: Seq<Vec<String>>) -> int {
    if b.len() == 0 {
        0
    } else {
        b[0]@.len() as int
    }
}

/// A rectangular grid whose every cell holds exactly one character.
pub open spec fn is_grid(b: Seq<Vec<String>>) -> bool {
    forall|r: int|
        0 <= r < b.len() ==> #[trigger] b[r]@.len() == width(b) && forall|c: int|
            0 <= c < width(b) ==> (#[trigger] b[r]@[c])@.len() == 1
}

/// A (column, row) cell lies on the grid.
pub open spec fn in_grid(b: Seq<Vec<String>>, cell: (usize, usize)) -> bool {
    cell.1 < b.len() && cell.0 < width(b)
}

/// The character of a (column, row) cell.
pub open spec fn letter_at(b: Seq<Vec<String>>, cell: (usize, usize)) -> char {
    b[cell.1 as int]@[cell.0 as int]@[0]
}

/// Two different cells that touch, across a side or a corner.
pub open spec fn adjacent(a: (usize, usize), b: (usize, usize)) -> bool {
    &&& a != b
    &&& -1 <= a.0 - b.0 <= 1
    &&& -1 <= a.1 - b.1 <= 1
}

/// A path on the grid: cells on the grid, none twice, each touching the next.
pub open spec fn is_path(b: Seq<Vec<String>>, p: Seq<(usize, usize)>) -> bool {
    &&& forall|i: int| 0 <= i < p.len() ==> in_grid(b, #[trigger] p[i])
    &&& forall|i: int, j: int| 0 <= i < j < p.len() ==> #[trigger] p[i] != #[trigger] p[j]
    &&& forall|i: int| 0 <= i < p.len() - 1 ==> adjacent(#[trigger] p[i], p[i + 1])
}

/// The characters that a path spells.
pub open spec fn spell(b: Seq<Vec<String>>, p: Seq<(usize, usize)>) -> Seq<char> {
    Seq::new(p.len(), |i: int| letter_at(b, p[i]))
}

/// Some path on the grid spells `s`.
pub open spec fn spelled_on(b: Seq<Vec<String>>, s: Seq<char>) -> bool {
    exists|p: Seq<(usize, usize)>| is_path(b, p) && #[trigger] spell(b, p) == s
}

/// A word that the search must report: at least three characters long, in
/// the dictionary, and spelled by a path on the grid.
pub open spec fn is_solution(b: Seq<Vec<String>>, words: Set<Seq<char>>, s: Seq<char>) -> bool {
    s.len() >= 3 && words.contains(s) && spelled_on(b, s)
}

/// The character sequences of a list of words.
pub open spec fn words_of(r: Seq<Word>) -> Set<Seq<char>> {
    Set::new(|s: Seq<char>| exists|i: int| 0 <= i < r.len() && (#[trigger] r[i]).word@ == s)
}

/// A reported word: long enough, in the dictionary, and carrying a path on
/// the grid that spells it.
pub open spec fn is_found(b: Seq<Vec<String>>, words: Set<Seq<char>>, w: Word) -> bool {
    &&& w.word@.len() >= 3
    &&& words.contains(w.word@)
    &&& is_path(b, w.characters@)
    &&& spell(b, w.characters@) == w.word@
}

/// Every entry is a reported word, and the list is strictly ranked: longer
/// first, equal lengths in lexicographic order, no word twice.
pub open spec fn ranked_words(b: Seq<Vec<String>>, words: Set<Seq<char>>, r: Seq<Word>) -> bool {
    &&& forall|i: int| 0 <= i < r.len() ==> is_found(b, words, #[trigger] r[i])
    &&& forall|i: int, j: int| 0 <= i < j < r.len() ==> ranks_before(#[trigger] r[i].word@, #[trigger] r[j].word@)
}

/// What the search returns on grid `b` and dictionary `words`: the ranked
/// list of exactly its solutions.
pub open spec fn search_result(b: Seq<Vec<String>>, words: Set<Seq<char>>, r: Seq<Word>) -> bool {
    &&& ranked_words(b, words, r)
    &&& forall|s: Seq<char>| is_solution(b, words, s) <==> #[trigger] words_of(r).contains(s)
}

/// Adds `w` at its rank unless a word with its characters is there already.
fn record(found: &mut Vec<Word>, w: &Word, Ghost(b): Ghost<Seq<Vec<String>>>, Ghost(words): Ghost<Set<Seq<char>>>)
    requires
        ranked_words(b, words, old(found)@),
        is_found(b, words, *w),
    ensures
        ranked_words(b, words, final(found)@),
        words_of(final(found)@) == words_of(old(found)@).insert(w.word@),
{
    let n = found.len();
    let wl = w.len();
    let mut i: usize = 0;
    while i < n
        invariant
            n == found@.len(),
            found@ == old(found)@,
            wl == w.word@.len(),
            i <= n,
            ranked_words(b, words, old(found)@),
            is_found(b, words, *w),
            forall|k: int| 0 <= k < i ==> ranks_before(#[trigger] found@[k].word@, w.word@),
        ensures
            i < n ==> ranks_before(w.word@, found@[i as int].word@),
        decreases n - i,
    {
        let fl = found[i].len();
        if fl > wl {
            i += 1;
        } else if fl < wl {
            break;
        } else {
            match found[i].cmp(w) {
                Ordering::Less => {
                    i += 1;
                },
                Ordering::Equal => {
                    proof {
                        assert(words_of(found@).contains(w.word@));
                        assert(words_of(found@).insert(w.word@) =~= words_of(found@));
                    }
                    return;
                },
                Ordering::Greater => {
                    proof {
                        lemma_lex_total(found@[i as int].word@, w.word@);
                    }
                    break;
                },
            }
        }
    }
    // Every entry from `i` on ranks after `w`.
    proof {
        if i < n {
            assert forall|k: int| i <= k < n implies ranks_before(w.word@, #[trigger] found@[k].word@) by {
                if k > i {
                    lemma_ranks_transitive(w.word@, found@[i as int].word@, found@[k].word@);
                }
            }
        }
    }
    let copy = w.duplicate();
    found.insert(i, copy);
    proof {
        let old_r = old(found)@;
        let r = found@;
        assert(r =~= old_r.insert(i as int, copy));
        assert forall|a: int, c: int| 0 <= a < c < r.len() implies ranks_before(#[trigger] r[a].word@, #[trigger] r[c].word@) by {
            if c < i {
                assert(r[a] == old_r[a] && r[c] == old_r[c]);
            } else if c == i {
                assert(r[a] == old_r[a]);
            } else if a < i {
                assert(r[a] == old_r[a] && r[c] == old_r[c - 1]);
            } else if a == i {
                assert(r[c] == old_r[c - 1]);
            } else {
                assert(r[a] == old_r[a - 1] && r[c] == old_r[c - 1]);
            }
        }
        assert forall|a: int| 0 <= a < r.len() implies is_found(b, words, #[trigger] r[a]) by {
            if a < i {
                assert(r[a] == old_r[a]);
            } else if a > i {
                assert(r[a] == old_r[a - 1]);
            }
        }
        assert forall|s: Seq<char>| #[trigger] words_of(r).contains(s) == words_of(old_r).insert(w.word@).contains(s) by {
            if words_of(r).contains(s) {
                let a = choose|a: int| 0 <= a < r.len() && (#[trigger] r[a]).word@ == s;
                if a < i {
                    assert(r[a] == old_r[a]);
                } else if a > i {
                    assert(r[a] == old_r[a - 1]);
                }
            }
            if words_of(old_r).contains(s) {
                let a = choose|a: int| 0 <= a < old_r.len() && (#[trigger] old_r[a]).word@ == s;
                if a < i {
                    assert(r[a] == old_r[a]);
                } else {
                    assert(r[a + 1] == old_r[a]);
                }
            }
            if s == w.word@ {
                assert(r[i as int] == copy);
            }
        }
        assert(words_of(r) =~= words_of(old_r).insert(w.word@));
    }
}

/// `full` is the path `p` continued through the cell `start`.
pub open spec fn continues(full: Seq<(usize, usize)>, p: Seq<(usize, usize)>, start: (usize, usize)) -> bool {
    full.len() > p.len() && full.subrange(0, p.len() as int) == p && full[p.len() as int] == start
}

/// Every dictionary word of three or more characters that a path continuing
/// `p` through `start` spells is among `found`.
pub open spec fn covered(
    b: Seq<Vec<String>>,
    words: Set<Seq<char>>,
    found: Set<Seq<char>>,
    p: Seq<(usize, usize)>,
    start: (usize, usize),
) -> bool {
    forall|full: Seq<(usize, usize)>|
        #[trigger] continues(full, p, start) && is_path(b, full) && spell(b, full).len() >= 3
            && words.contains(spell(b, full)) ==> found.contains(spell(b, full))
}

/// The marks of `v` are exactly the cells of `p`.
pub open spec fn marks(b: Seq<Vec<String>>, v: Seq<Vec<bool>>, p: Seq<(usize, usize)>) -> bool {
    &&& v.len() == b.len()
    &&& forall|r: int| 0 <= r < v.len() ==> (#[trigger] v[r])@.len() == width(b)
    &&& forall|r: int, c: int|
        0 <= r < v.len() && 0 <= c < width(b) ==> v[r]@[c] == p.contains((c as usize, r as usize))
}

/// Where cell `n` lies around cell `a`, as a number from 0 to 8 in row-major
/// order.
pub open spec fn direction(a: (usize, usize), n: (usize, usize)) -> int {
    (n.1 - a.1 + 1) * 3 + (n.0 - a.0 + 1)
}

/// Coverage holds of any larger set of found words.
proof fn lemma_covered_grows(
    b: Seq<Vec<String>>,
    words: Set<Seq<char>>,
    f1: Set<Seq<char>>,
    f2: Set<Seq<char>>,
    p: Seq<(usize, usize)>,
    start: (usize, usize),
)
    requires
        covered(b, words, f1, p, start),
        f1.subset_of(f2),
    ensures
        covered(b, words, f2, p, start),
{
}

/// Distinct cells of a row of width `c` have distinct row-major indices.
proof fn lemma_cell_index(x1: int, y1: int, x2: int, y2: int, c: int)
    requires
        0 <= x1 < c,
        0 <= x2 < c,
        0 <= y1,
        0 <= y2,
        y1 * c + x1 == y2 * c + x2,
    ensures
        x1 == x2,
        y1 == y2,
{
    if y1 < y2 {
        assert((y1 + 1) * c <= y2 * c) by (nonlinear_arith)
            requires
                y1 + 1 <= y2,
                c >= 0,
        ;
        assert(y1 * c + c == (y1 + 1) * c) by (nonlinear_arith);
    } else if y2 < y1 {
        assert((y2 + 1) * c <= y1 * c) by (nonlinear_arith)
            requires
                y2 + 1 <= y1,
                c >= 0,
        ;
        assert(y2 * c + c == (y2 + 1) * c) by (nonlinear_arith);
    }
}

/// A path visits each cell at most once, so it is no longer than the grid
/// has cells.
proof fn lemma_path_len(b: Seq<Vec<String>>, p: Seq<(usize, usize)>)
    requires
        is_path(b, p),
    ensures
        p.len() <= b.len() * width(b),
{
    let c = width(b);
    let r = b.len() as int;
    let s = p.map_values(|xy: (usize, usize)| xy.1 as int * c + xy.0 as int);
    assert forall|i: int, j: int| 0 <= i < s.len() && 0 <= j < s.len() && i != j implies s[i] != s[j] by {
        if s[i] == s[j] {
            lemma_cell_index(p[i].0 as int, p[i].1 as int, p[j].0 as int, p[j].1 as int, c);
            if i < j {
                assert(p[i] != p[j]);
            } else {
                assert(p[j] != p[i]);
            }
        }
    }
    s.unique_seq_to_set();
    assert forall|v: int| s.to_set().contains(v) implies set_int_range(0, r * c).contains(v) by {
        let i = choose|i: int| 0 <= i < s.len() && s[i] == v;
        let x = p[i].0 as int;
        let y = p[i].1 as int;
        assert(in_grid(b, p[i]));
        assert(0 <= y * c) by (nonlinear_arith)
            requires
                0 <= y,
                0 <= c,
        ;
        assert((y + 1) * c <= r * c) by (nonlinear_arith)
            requires
                y + 1 <= r,
                c >= 0,
        ;
        assert(y * c + c == (y + 1) * c) by (nonlinear_arith);
    }
    assert(0 <= r * c) by (nonlinear_arith)
        requires
            0 <= r,
            0 <= c,
    ;
    lemma_int_range(0, r * c);
    lemma_len_subset(s.to_set(), set_int_range(0, r * c));
}

/// True iff the (column, row) cell `(col, row)` lies on the grid.
fn in_bounds(board: &[Vec<String>], row: usize, col: usize) -> (r: bool)
    ensures
        r == in_grid(board@, (col, row)),
{
    row < board.len() && col < board[0].len()
}

/// Extends the current path through the cell at `row`, `col` and from there
/// through every neighbour, recording each dictionary word of three or more
/// characters; a prefix that leads to no word ends the branch. On return the
/// marks and the current word are as they were.
fn visit(
    board: &[Vec<String>],
    dictionary: &TrieNode,
    row: usize,
    col: usize,
    visited: &mut Vec<Vec<bool>>,
    current_word: &mut Word,
    words: &mut Vec<Word>,
)
    requires
        dictionary.wf(),
        is_grid(board@),
        marks(board@, old(visited)@, old(current_word).characters@),
        is_path(board@, old(current_word).characters@),
        old(current_word).word@ == spell(board@, old(current_word).characters@),
        old(current_word).characters@.len() > 0 ==> adjacent(
            old(current_word).characters@.last(),
            (col, row),
        ),
        ranked_words(board@, dictionary@, old(words)@),
    ensures
        marks(board@, final(visited)@, old(current_word).characters@),
        final(current_word).word@ == old(current_word).word@,
        final(current_word).characters@ == old(current_word).characters@,
        ranked_words(board@, dictionary@, final(words)@),
        words_of(old(words)@).subset_of(words_of(final(words)@)),
        covered(
            board@,
            dictionary@,
            words_of(final(words)@),
            old(current_word).characters@,
            (col, row),
        ),
    decreases board@.len() * width(board@) - current_word.characters@.len(),
{
    let ghost b = board@;
    let ghost d = dictionary@;
    let ghost p = current_word.characters@;
    let ghost start = (col, row);
    if !in_bounds(board, row, col) || visited[row][col] {
        proof {
            assert forall|full: Seq<(usize, usize)>|
                #[trigger] continues(full, p, start) && is_path(b, full) && spell(b, full).len() >= 3
                    && d.contains(spell(b, full)) implies words_of(words@).contains(spell(b, full)) by {
                assert(in_grid(b, full[p.len() as int]));
                let i = choose|i: int| 0 <= i < p.len() && p[i] == start;
                assert(full[i] == p[i]);
            }
        }
        return;
    }
    proof {
        lemma_path_len(b, p);
        assert(!p.contains(start));
    }
    let rows = board.len();
    let ncols = board[0].len();
    let ghost v0 = visited@;
    visited[row][col] = true;
    current_word.append(&board[row][col], col, row);
    let ghost grown = current_word.characters@;
    proof {
        assert(grown == p.push(start));
        assert(b[row as int]@.len() == width(b));
        let cell = b[row as int]@[col as int];
        assert(cell@.len() == 1);
        assert(cell@ =~= seq![letter_at(b, start)]);
        assert(current_word.word@ =~= spell(b, grown));
        assert(is_path(b, grown)) by {
            assert forall|i: int, j: int| 0 <= i < j < grown.len() implies #[trigger] grown[i] != #[trigger] grown[j] by {
                if j == p.len() {
                    assert(p.contains(grown[i]) ==> grown[i] != start);
                    assert(p[i] == grown[i]);
                }
            }
        }
        assert(marks(b, visited@, grown)) by {
            assert forall|r: int, c: int| 0 <= r < visited@.len() && 0 <= c < width(b) implies visited@[r]@[c]
                == grown.contains((c as usize, r as usize)) by {
                let x = (c as usize, r as usize);
                if grown.contains(x) && x != start {
                    let i = choose|i: int| 0 <= i < grown.len() && grown[i] == x;
                    assert(p[i] == x);
                }
                if p.contains(x) {
                    let i = choose|i: int| 0 <= i < p.len() && p[i] == x;
                    assert(grown[i] == x);
                }
                if x == start {
                    assert(grown[p.len() as int] == x);
                } else if r == row {
                    assert(visited@[r]@[c] == v0[r]@[c]);
                } else {
                    assert(visited@[r] == v0[r]);
                }
            }
        }
        lemma_path_len(b, grown);
    }
    if dictionary.has_prefix(current_word.word.as_str()) {
        if current_word.len() >= 3 && dictionary.is_word(current_word.word.as_str()) {
            record(words, current_word, Ghost(b), Ghost(d));
        }
        let mut k: usize = 0;
        while k < 9
            invariant
                dictionary.wf(),
                is_grid(b),
                b == board@,
                d == dictionary@,
                k <= 9,
                in_grid(b, start),
                row < rows,
                col < ncols,
                start == (col, row),
                grown == p.push(start),
                p == old(current_word).characters@,
                grown.len() <= b.len() * width(b),
                is_path(b, grown),
                marks(b, visited@, grown),
                current_word.word@ == spell(b, grown),
                current_word.characters@ == grown,
                ranked_words(b, d, words@),
                words_of(old(words)@).subset_of(words_of(words@)),
                spell(b, grown).len() >= 3 && d.contains(spell(b, grown)) ==> words_of(words@).contains(
                    spell(b, grown),
                ),
                forall|n: (usize, usize)|
                    adjacent(start, n) && #[trigger] direction(start, n) < k ==> covered(
                        b,
                        d,
                        words_of(words@),
                        grown,
                        n,
                    ),
            decreases 9 - k,
        {
            let dr = k / 3;
            let dc = k % 3;
            if k != 4 && (dr > 0 || row > 0) && (dc > 0 || col > 0) {
                let new_row = if dr == 0 {
                    row - 1
                } else {
                    row + (dr - 1)
                };
                let new_col = if dc == 0 {
                    col - 1
                } else {
                    col + (dc - 1)
                };
                let ghost before = words_of(words@);
                assert(0 <= board@.len() * width(board@) - current_word.characters@.len());
                assert(board@.len() * width(board@) - current_word.characters@.len() < board@.len()
                    * width(board@) - p.len());
                visit(board, dictionary, new_row, new_col, visited, current_word, words);
                proof {
                    let nb = (new_col, new_row);
                    assert(direction(start, nb) == k);
                    assert forall|n: (usize, usize)|
                        adjacent(start, n) && #[trigger] direction(start, n) < k + 1 implies covered(
                            b,
                            d,
                            words_of(words@),
                            grown,
                            n,
                        ) by {
                        if direction(start, n) < k {
                            lemma_covered_grows(b, d, before, words_of(words@), grown, n);
                        } else {
                            assert(n == nb);
                        }
                    }
                }
            } else {
                proof {
                    assert forall|n: (usize, usize)|
                        adjacent(start, n) && #[trigger] direction(start, n) < k + 1 implies covered(
                            b,
                            d,
                            words_of(words@),
                            grown,
                            n,
                        ) by {
                        if direction(start, n) == k {
                            assert(false);
                        }
                    }
                }
            }
            k += 1;
        }
        proof {
            assert forall|full: Seq<(usize, usize)>|
                #[trigger] continues(full, p, start) && is_path(b, full) && spell(b, full).len() >= 3
                    && d.contains(spell(b, full)) implies words_of(words@).contains(spell(b, full)) by {
                if full.len() == grown.len() {
                    assert(full =~= grown);
                } else {
                    let n = full[grown.len() as int];
                    assert(adjacent(full[p.len() as int], n));
                    assert(full.subrange(0, grown.len() as int) =~= grown);
                    assert(continues(full, grown, n));
                    assert(direction(start, n) < 9);
                }
            }
        }
    } else {
        proof {
            assert forall|full: Seq<(usize, usize)>|
                #[trigger] continues(full, p, start) && is_path(b, full) && spell(b, full).len() >= 3
                    && d.contains(spell(b, full)) implies words_of(words@).contains(spell(b, full)) by {
                let w = spell(b, full);
                assert(full.subrange(0, grown.len() as int) =~= grown);
                assert(w.subrange(0, grown.len() as int) =~= spell(b, grown));
                assert(is_prefix_of(spell(b, grown), w));
                assert(prefix_of_some(d, spell(b, grown)));
            }
        }
    }
    let ghost v1 = visited@;
    visited[row][col] = false;
    let n = current_word.len();
    current_word.truncate(n - board[row][col].as_str().unicode_len());
    proof {
        assert(current_word.characters@ =~= p);
        assert(current_word.word@ =~= spell(b, p));
        assert forall|r: int, c: int| 0 <= r < visited@.len() && 0 <= c < width(b) implies visited@[r]@[c]
            == p.contains((c as usize, r as usize)) by {
            let x = (c as usize, r as usize);
            if p.contains(x) {
                let i = choose|i: int| 0 <= i < p.len() && p[i] == x;
                assert(grown[i] == x);
            }
            if grown.contains(x) && x != start {
                let i = choose|i: int| 0 <= i < grown.len() && grown[i] == x;
                assert(p[i] == x);
            }
            if x != start {
                if r == row {
                    assert(visited@[r]@[c] == v1[r]@[c]);
                } else {
                    assert(visited@[r] == v1[r]);
                }
            }
        }
    }
}

/// Finds every word of `dictionary` with three or more characters that a path
/// of adjacent cells spells on `board`, a rectangular grid of one-character
/// cells given row by row. Each word comes once, with one path that spells
/// it, longest first and words of equal length in lexicographic order.
pub fn find_all_words(board: &[Vec<String>], dictionary: &TrieNode) -> (r: Vec<Word>)
    requires
        dictionary.wf(),
        is_grid(board@),
    ensures
        search_result(board@, dictionary@, r@),
{
    let ghost b = board@;
    let ghost d = dictionary@;
    let mut words: Vec<Word> = Vec::new();
    let rows = board.len();
    if rows == 0 {
        proof {
            assert forall|s: Seq<char>| is_solution(b, d, s) <==> #[trigger] words_of(words@).contains(s) by {
                if is_solution(b, d, s) {
                    let p = choose|p: Seq<(usize, usize)>| is_path(b, p) && #[trigger] spell(b, p) == s;
                    assert(in_grid(b, p[0]));
                }
            }
        }
        return words;
    }
    let cols = board[0].len();
    let mut visited: Vec<Vec<bool>> = Vec::new();
    let mut i: usize = 0;
    while i < rows
        invariant
            rows == b.len(),
            cols == width(b),
            i <= rows,
            visited@.len() == i,
            forall|r: int| 0 <= r < i ==> (#[trigger] visited@[r])@.len() == cols && forall|c: int|
                0 <= c < cols ==> !visited@[r]@[c],
        decreases rows - i,
    {
        let mut line: Vec<bool> = Vec::new();
        let mut j: usize = 0;
        while j < cols
            invariant
                j <= cols,
                line@.len() == j,
                forall|c: int| 0 <= c < j ==> !line@[c],
            decreases cols - j,
        {
            line.push(false);
            j += 1;
        }
        visited.push(line);
        i += 1;
    }
    let mut current_word = Word::new();
    let ghost empty = Seq::<(usize, usize)>::empty();
    assert(current_word.word@ =~= spell(b, empty));
    assert(is_path(b, empty));
    let mut row: usize = 0;
    while row < rows
        invariant
            dictionary.wf(),
            is_grid(b),
            b == board@,
            d == dictionary@,
            rows == b.len(),
            cols == width(b),
            row <= rows,
            empty.len() == 0,
            marks(b, visited@, empty),
            is_path(b, empty),
            current_word.word@ == spell(b, empty),
            current_word.characters@ == empty,
            ranked_words(b, d, words@),
            forall|cell: (usize, usize)|
                #[trigger] in_grid(b, cell) && cell.1 < row ==> covered(b, d, words_of(words@), empty, cell),
        decreases rows - row,
    {
        let mut col: usize = 0;
        while col < cols
            invariant
                dictionary.wf(),
                is_grid(b),
                b == board@,
                d == dictionary@,
                rows == b.len(),
                cols == width(b),
                row < rows,
                col <= cols,
                empty.len() == 0,
                marks(b, visited@, empty),
                is_path(b, empty),
                current_word.word@ == spell(b, empty),
                current_word.characters@ == empty,
                ranked_words(b, d, words@),
                forall|cell: (usize, usize)|
                    #[trigger] in_grid(b, cell) && (cell.1 < row || (cell.1 == row && cell.0 < col))
                        ==> covered(b, d, words_of(words@), empty, cell),
            decreases cols - col,
        {
            let ghost before = words_of(words@);
            visit(board, dictionary, row, col, &mut visited, &mut current_word, &mut words);
            proof {
                assert forall|cell: (usize, usize)|
                    #[trigger] in_grid(b, cell) && (cell.1 < row || (cell.1 == row && cell.0 < col + 1))
                        implies covered(b, d, words_of(words@), empty, cell) by {
                    if cell != (col, row) {
                        lemma_covered_grows(b, d, before, words_of(words@), empty, cell);
                    }
                }
            }
            col += 1;
        }
        row += 1;
    }
    proof {
        assert forall|s: Seq<char>| is_solution(b, d, s) <==> #[trigger] words_of(words@).contains(s) by {
            if is_solution(b, d, s) {
                let p = choose|p: Seq<(usize, usize)>| is_path(b, p) && #[trigger] spell(b, p) == s;
                assert(in_grid(b, p[0]));
                assert(p.subrange(0, 0) =~= empty);
                assert(continues(p, empty, p[0]));
            }
            if words_of(words@).contains(s) {
                let k = choose|k: int| 0 <= k < words@.len() && (#[trigger] words@[k]).word@ == s;
                assert(is_found(b, d, words@[k]));
                assert(spelled_on(b, s));
            }
        }
    }
    words
}

/// Why a grid cannot be searched.
#[derive(Debug, PartialEq, Eq, Structural)]
pub enum GridShapeError {
    /// This row's length differs from the first row's.
    RaggedRow(usize),
    /// The cell at this (column, row) does not hold exactly one character.
    NotOneCharacter(usize, usize),
}

/// Row `r` is the first whose length differs from the first row's.
pub open spec fn first_ragged_row(b: Seq<Vec<String>>, r: int) -> bool {
    0 <= r < b.len() && b[r]@.len() != width(b) && forall|q: int| 0 <= q < r ==> (#[trigger] b[q])@.len() == width(b)
}

/// The cell at column `c`, row `r` is the first, row by row, that does not
/// hold exactly one character.
pub open spec fn first_bad_cell(b: Seq<Vec<String>>, c: int, r: int) -> bool {
    &&& 0 <= r < b.len()
    &&& 0 <= c < width(b)
    &&& b[r]@[c]@.len() != 1
    &&& forall|q: int, k: int|
        0 <= q < b.len() && 0 <= k < width(b) && (q < r || (q == r && k < c)) ==> (#[trigger] b[q]@[k])@.len() == 1
}

/// Checks that `board` is rectangular with one character in each cell.
pub fn check_grid(board: &[Vec<String>]) -> (r: Result<(), GridShapeError>)
    ensures
        r is Ok <==> is_grid(board@),
        r matches Err(GridShapeError::RaggedRow(_)) <==> exists|q: int|
            0 <= q < board@.len() && (#[trigger] board@[q])@.len() != width(board@),
        r matches Err(GridShapeError::RaggedRow(row)) ==> first_ragged_row(board@, row as int),
        r matches Err(GridShapeError::NotOneCharacter(col, row)) ==> (forall|q: int|
            0 <= q < board@.len() ==> (#[trigger] board@[q])@.len() == width(board@)) && first_bad_cell(
            board@,
            col as int,
            row as int,
        ),
{
    let rows = board.len();
    if rows == 0 {
        return Ok(());
    }
    let cols = board[0].len();
    let mut i: usize = 0;
    while i < rows
        invariant
            rows == board@.len(),
            cols == width(board@),
            i <= rows,
            forall|q: int| 0 <= q < i ==> (#[trigger] board@[q])@.len() == width(board@),
        decreases rows - i,
    {
        if board[i].len() != cols {
            return Err(GridShapeError::RaggedRow(i));
        }
        i += 1;
    }
    let mut r: usize = 0;
    while r < rows
        invariant
            rows == board@.len(),
            cols == width(board@),
            r <= rows,
            forall|q: int| 0 <= q < rows ==> (#[trigger] board@[q])@.len() == width(board@),
            forall|q: int, k: int|
                0 <= q < r && 0 <= k < cols ==> (#[trigger] board@[q]@[k])@.len() == 1,
        decreases rows - r,
    {
        let mut c: usize = 0;
        while c < cols
            invariant
                rows == board@.len(),
                cols == width(board@),
                r < rows,
                c <= cols,
                forall|q: int| 0 <= q < rows ==> (#[trigger] board@[q])@.len() == width(board@),
                forall|q: int, k: int|
                    0 <= q < board@.len() && 0 <= k < cols && (q < r || (q == r && k < c)) ==> (
                    #[trigger] board@[q]@[k])@.len() == 1,
            decreases cols - c,
        {
            if board[r][c].as_str().unicode_len() != 1 {
                return Err(GridShapeError::NotOneCharacter(c, r));
            }
            c += 1;
        }
        r += 1;
    }
    Ok(())
}

/// Checks the grid, then searches it: the grid's error when it is not
/// rectangular with one character per cell, else `find_all_words`'s result.
pub fn solve_board(board: &[Vec<String>], dictionary: &TrieNode) -> (r: Result<Vec<Word>, GridShapeError>)
    requires
        dictionary.wf(),
    ensures
        r is Ok <==> is_grid(board@),
        r matches Ok(found) ==> search_result(board@, dictionary@, found@),
{
    match check_grid(board) {
        Ok(()) => Ok(find_all_words(board, dictionary)),
        Err(e) => Err(e),
    }
}

/// No word comes twice in a search result.
pub proof fn lemma_result_distinct(b: Seq<Vec<String>>, words: Set<Seq<char>>, r: Seq<Word>, i: int, j: int)
    requires
        search_result(b, words, r),
        0 <= i < j < r.len(),
    ensures
        r[i].word@ != r[j].word@,
{
    assert(ranks_before(r[i].word@, r[j].word@));
    lemma_lex_irreflexive(r[i].word@);
}

/// Each word of a search result is at least three characters long, in the
/// dictionary, and spelled by the path it carries: a path of distinct,
/// pairwise adjacent cells on the grid.
pub proof fn lemma_result_sound(b: Seq<Vec<String>>, words: Set<Seq<char>>, r: Seq<Word>, i: int)
    requires
        search_result(b, words, r),
        0 <= i < r.len(),
    ensures
        r[i].word@.len() >= 3,
        words.contains(r[i].word@),
        is_path(b, r[i].characters@),
        spell(b, r[i].characters@) == r[i].word@,
        r[i].characters@.len() == r[i].word@.len(),
{
    assert(is_found(b, words, r[i]));
}

/// Of two neighbours in a search result, the first is longer, or as long and
/// lexicographically smaller.
pub proof fn lemma_result_sorted(b: Seq<Vec<String>>, words: Set<Seq<char>>, r: Seq<Word>, i: int)
    requires
        search_result(b, words, r),
        0 <= i < r.len() - 1,
    ensures
        r[i].word@.len() > r[i + 1].word@.len() || (r[i].word@.len() == r[i + 1].word@.len()
            && lex_less(r[i].word@, r[i + 1].word@)),
{
    assert(ranks_before(r[i].word@, r[i + 1].word@));
}

/// Two searches of one grid with one dictionary find the same words.
pub proof fn lemma_search_repeatable(b: Seq<Vec<String>>, words: Set<Seq<char>>, r1: Seq<Word>, r2: Seq<Word>)
    requires
        search_result(b, words, r1),
        search_result(b, words, r2),
    ensures
        words_of(r1) == words_of(r2),
{
    assert forall|s: Seq<char>| #[trigger] words_of(r1).contains(s) == words_of(r2).contains(s) by {
        assert(words_of(r1).contains(s) == is_solution(b, words, s));
        assert(words_of(r2).contains(s) == is_solution(b, words, s));
    }
    assert(words_of(r1) =~= words_of(r2));
}

/// With an empty dictionary a search finds nothing.
pub proof fn lemma_empty_dictionary(b: Seq<Vec<String>>, r: Seq<Word>)
    requires
        search_result(b, Set::<Seq<char>>::empty(), r),
    ensures
        r.len() == 0,
{
    if r.len() > 0 {
        assert(is_found(b, Set::<Seq<char>>::empty(), r[0]));
    }
}

} // verus!
