//! Puzzle pieces, the image files they are loaded from, and the most common
//! piece size.

use vstd::prelude::*;

use crate::raster::Image;
use crate::sums::{lemma_sum_congruent, sum_upto};
use vstd::string::{StrSliceExecFns, StringExecFns, StringSliceAdditionalSpecFns};

verus! {

/// One piece of the puzzle: its image, the file it came from, and what has
/// been found out about its neighbours.
#[derive(Clone)]
pub struct Piece {
    pub index: u32,
    pub image: Image,
    pub right_neighbor: Option<u32>,
    pub left_neighbor: Option<u32>,
    pub bottom_neighbor: Option<u32>,
    pub file_name: String,
    pub right_neighbor_diff: u32,
    pub left_neighbor_diff: u32,
}

impl Piece {
    /// A piece with no neighbours known yet; the neighbour differences start at
    /// `u32::MAX`.
    pub fn new(img: Image, idx: u32, filename: String) -> (piece: Self)
        ensures
            piece.index == idx,
            piece.image == img,
            piece.right_neighbor is None,
            piece.left_neighbor is None,
            piece.bottom_neighbor is None,
            piece.file_name@ == filename@,
            piece.right_neighbor_diff == u32::MAX,
            piece.left_neighbor_diff == u32::MAX,
    {
        Self {
            index: idx,
            image: img,
            right_neighbor: None,
            left_neighbor: None,
            bottom_neighbor: None,
            file_name: filename,
            right_neighbor_diff: u32::MAX,
            left_neighbor_diff: u32::MAX,
        }
    }
}

// ---------------------------------------------------------------------------
// The text that describes a piece.

/// The character of the decimal digit `d`.
pub open spec fn digit_char(d: nat) -> char {
    if d == 0 {
        '0'
    } else if d == 1 {
        '1'
    } else if d == 2 {
        '2'
    } else if d == 3 {
        '3'
    } else if d == 4 {
        '4'
    } else if d == 5 {
        '5'
    } else if d == 6 {
        '6'
    } else if d == 7 {
        '7'
    } else if d == 8 {
        '8'
    } else {
        '9'
    }
}

/// `n` written in decimal, without leading zeros.
pub open spec fn decimal_text(n: nat) -> Seq<char>
    decreases n,
{
    if n < 10 {
        seq![digit_char(n)]
    } else {
        decimal_text(n / 10) + seq![digit_char(n % 10)]
    }
}

/// The number that a string of decimal digits stands for.
pub open spec fn digits_value(digits: Seq<char>) -> int
    decreases digits.len(),
{
    if digits.len() == 0 {
        0
    } else {
        digits_value(digits.drop_last()) * 10 + (digits.last() as u32 - '0' as u32)
    }
}

/// `n` in decimal is a non-empty string of the digits `0` to `9` that stands
/// for `n` and starts with `0` only when `n` is zero.
pub proof fn lemma_decimal_text_value(n: nat)
    ensures
        decimal_text(n).len() > 0,
        forall|j: int| 0 <= j < decimal_text(n).len() ==> '0' <= #[trigger] decimal_text(n)[j] <= '9',
        digits_value(decimal_text(n)) == n,
        decimal_text(n)[0] == '0' ==> n == 0,
    decreases n,
{
    let t = decimal_text(n);
    if n >= 10 {
        lemma_decimal_text_value(n / 10);
        let prev = decimal_text(n / 10);
        assert(t.drop_last() =~= prev);
        lemma_digit_char_value((n % 10) as nat);
        assert(t.last() == digit_char((n % 10) as nat));
        assert(digits_value(t) == digits_value(prev) * 10 + (n % 10));
        assert(n == (n / 10) * 10 + n % 10);
        assert forall|j: int| 0 <= j < t.len() implies '0' <= #[trigger] t[j] <= '9' by {
            if j < prev.len() {
                assert(t[j] == prev[j]);
            }
        }
        assert(t[0] == prev[0]);
    } else {
        assert(t.drop_last() =~= Seq::<char>::empty());
        lemma_digit_char_value(n);
        assert(t.last() == digit_char(n));
        assert(digits_value(t) == digits_value(Seq::<char>::empty()) * 10 + n);
    }
}

proof fn lemma_digit_char_value(d: nat)
    requires
        d < 10,
    ensures
        digit_char(d) as u32 - '0' as u32 == d,
        '0' <= digit_char(d) <= '9',
{
}

/// An optional number as `Some(n)` or `None`.
pub open spec fn option_text(o: Option<u32>) -> Seq<char> {
    match o {
        Some(n) => "Some("@ + decimal_text(n as nat) + ")"@,
        None => "None"@,
    }
}

/// The line that describes a piece: its index, its neighbours with their
/// differences, and its file name.
pub open spec fn piece_text(piece: Piece) -> Seq<char> {
    "Piece(index: "@ + decimal_text(piece.index as nat) + ", right_neighbor: "@ + option_text(piece.right_neighbor)
        + ", right_neighbor_diff "@ + decimal_text(piece.right_neighbor_diff as nat) + ", left_neighbor: "@
        + option_text(piece.left_neighbor) + ", left_neighbor_diff "@ + decimal_text(piece.left_neighbor_diff as nat)
        + " bottom_neighbor: "@ + option_text(piece.bottom_neighbor) + ", file: "@ + piece.file_name@ + ")"@
}

/// The one-character text of the digit `d`.
fn digit_str(d: u32) -> (text: &'static str)
    requires
        d < 10,
    ensures
        text@ == seq![digit_char(d as nat)],
{
    proof {
        reveal_strlit("0");
        reveal_strlit("1");
        reveal_strlit("2");
        reveal_strlit("3");
        reveal_strlit("4");
        reveal_strlit("5");
        reveal_strlit("6");
        reveal_strlit("7");
        reveal_strlit("8");
        reveal_strlit("9");
    }
    let text = if d == 0 {
        "0"
    } else if d == 1 {
        "1"
    } else if d == 2 {
        "2"
    } else if d == 3 {
        "3"
    } else if d == 4 {
        "4"
    } else if d == 5 {
        "5"
    } else if d == 6 {
        "6"
    } else if d == 7 {
        "7"
    } else if d == 8 {
        "8"
    } else {
        "9"
    };
    assert(text@ =~= seq![digit_char(d as nat)]);
    text
}

/// Appends `n` in decimal to `text`.
fn push_decimal(text: &mut String, n: u32)
    ensures
        final(text)@ == old(text)@ + decimal_text(n as nat),
    decreases n,
{
    if n >= 10 {
        push_decimal(text, n / 10);
    }
    text.append(digit_str(n % 10));
    assert(final(text)@ =~= old(text)@ + decimal_text(n as nat));
}

/// Appends `Some(n)` or `None` to `text`.
fn push_option(text: &mut String, o: Option<u32>)
    ensures
        final(text)@ == old(text)@ + option_text(o),
{
    match o {
        Some(n) => {
            text.append("Some(");
            push_decimal(text, n);
            text.append(")");
            assert(final(text)@ =~= old(text)@ + option_text(o));
        },
        None => {
            text.append("None");
        },
    }
}

impl Piece {
    /// The line that describes this piece.
    pub fn description(&self) -> (text: String)
        ensures
            text@ == piece_text(*self),
    {
        let mut text = String::from_str("Piece(index: ");
        push_decimal(&mut text, self.index);
        text.append(", right_neighbor: ");
        push_option(&mut text, self.right_neighbor);
        text.append(", right_neighbor_diff ");
        push_decimal(&mut text, self.right_neighbor_diff);
        text.append(", left_neighbor: ");
        push_option(&mut text, self.left_neighbor);
        text.append(", left_neighbor_diff ");
        push_decimal(&mut text, self.left_neighbor_diff);
        text.append(" bottom_neighbor: ");
        push_option(&mut text, self.bottom_neighbor);
        text.append(", file: ");
        text.append(self.file_name.as_str());
        text.append(")");
        assert(text@ =~= piece_text(*self));
        text
    }
}

// ---------------------------------------------------------------------------
// Image files, recognised by the extension of their name.

pub open spec fn dot() -> u8 {
    46u8
}

/// Position of the last `.` among the first `n` bytes of `name`, or -1.
pub open spec fn last_dot_before(name: Seq<u8>, n: int) -> int
    decreases n,
{
    if n <= 0 {
        -1
    } else if name[n - 1] == dot() {
        n - 1
    } else {
        last_dot_before(name, n - 1)
    }
}

/// The extension of a file name, as `Path::extension` defines it: the part after
/// the last `.`, unless there is no `.`, the only `.` starts the name, or the
/// name is `..`.
pub open spec fn extension_of(name: Seq<u8>) -> Option<Seq<u8>> {
    let i = last_dot_before(name, name.len() as int);
    if i <= 0 || name =~= seq![dot(), dot()] {
        None
    } else {
        Some(name.subrange(i + 1, name.len() as int))
    }
}

/// The extensions of image files: `jpg`, `jpeg`, `png`, `gif` and `bmp`.
pub open spec fn image_extensions() -> Seq<Seq<u8>> {
    seq![
        seq![106u8, 112u8, 103u8],
        seq![106u8, 112u8, 101u8, 103u8],
        seq![112u8, 110u8, 103u8],
        seq![103u8, 105u8, 102u8],
        seq![98u8, 109u8, 112u8],
    ]
}

pub open spec fn is_image_name(name: Seq<u8>) -> bool {
    match extension_of(name) {
        Some(ext) => image_extensions().contains(ext),
        None => false,
    }
}

proof fn lemma_last_dot_before(name: Seq<u8>, n: int)
    requires
        0 <= n <= name.len(),
    ensures
        -1 <= last_dot_before(name, n) < n,
        last_dot_before(name, n) >= 0 ==> name[last_dot_before(name, n)] == dot(),
        forall|j: int| last_dot_before(name, n) < j < n ==> name[j] != dot(),
    decreases n,
{
    if n > 0 {
        lemma_last_dot_before(name, n - 1);
    }
}

proof fn lemma_last_dot_at(name: Seq<u8>, j: int, n: int)
    requires
        0 <= j < n <= name.len(),
        name[j] == dot(),
        forall|m: int| j < m < n ==> name[m] != dot(),
    ensures
        last_dot_before(name, n) == j,
    decreases n,
{
    if n > j + 1 {
        lemma_last_dot_at(name, j, n - 1);
    }
}

/// A file name is taken for an image exactly when it ends with `.` and one of
/// the image extensions, with something before that `.`.
pub proof fn lemma_image_name_suffix(name: Seq<u8>)
    ensures
        is_image_name(name) <==> exists|k: int|
            0 <= k < image_extensions().len() && name.len() > (#[trigger] image_extensions()[k]).len() + 1
                && name.subrange(name.len() - image_extensions()[k].len() - 1, name.len() as int) == seq![dot()]
                + image_extensions()[k],
{
    let exts = image_extensions();
    let n = name.len() as int;
    lemma_last_dot_before(name, n);
    let i = last_dot_before(name, n);
    if is_image_name(name) {
        let ext = name.subrange(i + 1, n);
        let k = choose|k: int| 0 <= k < exts.len() && exts[k] == ext;
        assert(name.subrange(n - exts[k].len() - 1, n) =~= seq![dot()] + exts[k]);
    }
    if exists|k: int|
        0 <= k < exts.len() && name.len() > (#[trigger] exts[k]).len() + 1 && name.subrange(
            n - exts[k].len() - 1,
            n,
        ) == seq![dot()] + exts[k] {
        let k = choose|k: int|
            0 <= k < exts.len() && name.len() > (#[trigger] exts[k]).len() + 1 && name.subrange(
                n - exts[k].len() - 1,
                n,
            ) == seq![dot()] + exts[k];
        let e = exts[k];
        let j = n - e.len() - 1;
        assert(forall|m: int| 0 <= m < e.len() ==> e[m] != dot()) by {
            assert(k == 0 || k == 1 || k == 2 || k == 3 || k == 4);
        }
        assert(name[j] == name.subrange(j, n)[0]);
        assert forall|m: int| j < m < n implies name[m] != dot() by {
            assert(name[m] == name.subrange(j, n)[m - j]);
            assert((seq![dot()] + e)[m - j] == e[m - j - 1]);
        }
        lemma_last_dot_at(name, j, n);
        assert(!(name =~= seq![dot(), dot()]));
        assert(name.subrange(j + 1, n) =~= e) by {
            assert forall|m: int| 0 <= m < e.len() implies name.subrange(j + 1, n)[m] == e[m] by {
                assert(name[j + 1 + m] == name.subrange(j, n)[m + 1]);
                assert((seq![dot()] + e)[m + 1] == e[m]);
            }
        }
        assert(exts[k] == name.subrange(j + 1, n));
        assert(exts.contains(name.subrange(j + 1, n)));
    }
}

/// Whether the bytes of `name` from `start` on are exactly `ext`.
fn tail_equals(name: &[u8], start: usize, ext: &[u8]) -> (r: bool)
    requires
        start <= name@.len(),
    ensures
        r == (name@.subrange(start as int, name@.len() as int) =~= ext@),
{
    let n = name.len();
    if n - start != ext.len() {
        return false;
    }
    let mut k: usize = 0;
    while k < ext.len()
        invariant
            n == name@.len(),
            start <= name@.len(),
            name@.len() - start == ext@.len(),
            k <= ext@.len(),
            forall|j: int| 0 <= j < k ==> name@[start + j] == ext@[j],
        decreases ext@.len() - k,
    {
        if name[start + k] != ext[k] {
            return false;
        }
        k = k + 1;
    }
    true
}

/// Whether a file with this name is taken for an image: its extension is one of
/// `jpg`, `jpeg`, `png`, `gif` or `bmp` (letter case counts).
pub fn is_image_file(file_name: &str) -> (r: bool)
    ensures
        r == is_image_name(file_name.spec_bytes()),
{
    let name = file_name.as_bytes();
    let n = name.len();
    let mut i: usize = n;
    while i > 0 && name[i - 1] != 46u8
        invariant
            n == name@.len(),
            i <= n,
            last_dot_before(name@, n as int) == last_dot_before(name@, i as int),
        decreases i,
    {
        i = i - 1;
    }
    // `i - 1` is now the position of the last dot, if there is one
    if i <= 1 {
        return false;
    }
    if n == 2 && name[0] == 46u8 && name[1] == 46u8 {
        proof {
            assert(name@ =~= seq![dot(), dot()]);
        }
        return false;
    }
    proof {
        assert(!(name@ =~= seq![dot(), dot()])) by {
            if name@ =~= seq![dot(), dot()] {
                assert(name@[0] == dot() && name@[1] == dot());
            }
        }
    }
    let jpg: [u8; 3] = [106u8, 112u8, 103u8];
    let jpeg: [u8; 4] = [106u8, 112u8, 101u8, 103u8];
    let png: [u8; 3] = [112u8, 110u8, 103u8];
    let gif: [u8; 3] = [103u8, 105u8, 102u8];
    let bmp: [u8; 3] = [98u8, 109u8, 112u8];
    let r = tail_equals(name, i, &jpg) || tail_equals(name, i, &jpeg) || tail_equals(name, i, &png)
        || tail_equals(name, i, &gif) || tail_equals(name, i, &bmp);
    proof {
        let ext = name@.subrange(i as int, n as int);
        assert(extension_of(name@) == Some(ext));
        let exts = image_extensions();
        assert(jpg@ =~= exts[0]);
        assert(jpeg@ =~= exts[1]);
        assert(png@ =~= exts[2]);
        assert(gif@ =~= exts[3]);
        assert(bmp@ =~= exts[4]);
        if exts.contains(ext) {
            let k = choose|k: int| 0 <= k < exts.len() && exts[k] == ext;
            assert(k == 0 || k == 1 || k == 2 || k == 3 || k == 4);
        }
        if r {
            if ext =~= exts[0] { assert(exts.contains(ext)) by { assert(exts[0] == ext); } }
            if ext =~= exts[1] { assert(exts.contains(ext)) by { assert(exts[1] == ext); } }
            if ext =~= exts[2] { assert(exts.contains(ext)) by { assert(exts[2] == ext); } }
            if ext =~= exts[3] { assert(exts.contains(ext)) by { assert(exts[3] == ext); } }
            if ext =~= exts[4] { assert(exts.contains(ext)) by { assert(exts[4] == ext); } }
        }
    }
    r
}

/// Number of characters of `name` before its first `.`; all of them when there
/// is none.
pub open spec fn stem_len(name: Seq<char>) -> int
    decreases name.len(),
{
    if name.len() == 0 || name[0] == '.' {
        0
    } else {
        1 + stem_len(name.drop_first())
    }
}

/// The part of `name` before its first `.`.
pub open spec fn stem_of(name: Seq<char>) -> Seq<char> {
    name.take(stem_len(name))
}

proof fn lemma_stem_len(name: Seq<char>, i: int)
    requires
        0 <= i <= name.len(),
        forall|j: int| 0 <= j < i ==> name[j] != '.',
        i == name.len() || name[i] == '.',
    ensures
        stem_len(name) == i,
    decreases i,
{
    if i > 0 {
        let rest = name.drop_first();
        assert forall|j: int| 0 <= j < i - 1 implies rest[j] != '.' by {
            assert(rest[j] == name[j + 1]);
        }
        if i < name.len() {
            assert(rest[i - 1] == name[i]);
        }
        lemma_stem_len(rest, i - 1);
    }
}

/// The name without its extensions is the longest beginning of the name that
/// holds no `.`: a prefix of it with no `.`, followed in the name by a `.` or
/// by nothing.
pub proof fn lemma_stem_is_part_before_first_dot(name: Seq<char>)
    ensures
        0 <= stem_len(name) <= name.len(),
        ({
            let stem = stem_of(name);
            &&& stem.len() <= name.len()
            &&& forall|j: int| 0 <= j < stem.len() ==> #[trigger] stem[j] == name[j] && stem[j] != '.'
            &&& stem.len() == name.len() || name[stem.len() as int] == '.'
        }),
    decreases name.len(),
{
    if name.len() > 0 && name[0] != '.' {
        let rest = name.drop_first();
        lemma_stem_is_part_before_first_dot(rest);
        let stem = stem_of(name);
        let tail = stem_of(rest);
        assert(stem_len(name) == 1 + stem_len(rest));
        assert(stem.len() == tail.len() + 1);
        assert forall|j: int| 0 <= j < stem.len() implies #[trigger] stem[j] == name[j] && stem[j] != '.' by {
            if j > 0 {
                assert(tail[j - 1] == rest[j - 1]);
            }
        }
        if stem.len() < name.len() {
            assert(name[stem.len() as int] == rest[tail.len() as int]);
        }
    }
}

/// The name of a file without its extensions: the part before its first `.`.
pub fn name_without_extension(file_name: &str) -> (stem: String)
    ensures
        stem@ == stem_of(file_name@),
{
    let n = file_name.unicode_len();
    let mut i: usize = 0;
    while i < n && file_name.get_char(i) != '.'
        invariant
            n == file_name@.len(),
            i <= n,
            forall|j: int| 0 <= j < i ==> file_name@[j] != '.',
        decreases n - i,
    {
        i = i + 1;
    }
    proof {
        lemma_stem_len(file_name@, i as int);
    }
    String::from_str(file_name.substring_char(0, i))
}

// ---------------------------------------------------------------------------
// The most common piece size.

/// Width and height of a piece's image.
pub open spec fn dims_of(piece: Piece) -> (u32, u32) {
    (piece.image.width(), piece.image.height())
}

pub open spec fn dims_match_terms(pieces: Seq<Piece>, dims: (u32, u32)) -> spec_fn(int) -> int {
    |i: int| if dims_of(pieces[i]) == dims { 1int } else { 0int }
}

/// How many of the pieces have the size `dims`.
pub open spec fn dims_count(pieces: Seq<Piece>, dims: (u32, u32)) -> int {
    sum_upto(dims_match_terms(pieces, dims), pieces.len() as int)
}

/// A single piece counts once for its own width and height together, and not
/// for any other pair.
pub proof fn lemma_dims_count_single(piece: Piece, dims: (u32, u32))
    ensures
        dims_count(seq![piece], dims) == if piece.image.width() == dims.0 && piece.image.height() == dims.1 {
            1int
        } else {
            0int
        },
{
    let s = seq![piece];
    assert(sum_upto(dims_match_terms(s, dims), 0) == 0);
}

/// Counting the pieces of one size over two lists put end to end adds the
/// counts of the two lists.
pub proof fn lemma_dims_count_append(a: Seq<Piece>, b: Seq<Piece>, dims: (u32, u32))
    ensures
        dims_count(a + b, dims) == dims_count(a, dims) + dims_count(b, dims),
    decreases b.len(),
{
    if b.len() == 0 {
        assert(a + b =~= a);
        assert(sum_upto(dims_match_terms(b, dims), 0) == 0);
    } else {
        let b0 = b.drop_last();
        let last = b.last();
        lemma_dims_count_append(a, b0, dims);
        assert(a + b =~= (a + b0).push(last));
        assert(b =~= b0.push(last));
        lemma_dims_count_push(a + b0, last, dims);
        lemma_dims_count_push(b0, last, dims);
    }
}

proof fn lemma_dims_count_push(s: Seq<Piece>, p: Piece, dims: (u32, u32))
    ensures
        dims_count(s.push(p), dims) == dims_count(s, dims) + if dims_of(p) == dims {
            1int
        } else {
            0int
        },
{
    let t = s.push(p);
    assert forall|i: int| 0 <= i < s.len() implies #[trigger] dims_match_terms(t, dims)(i) == dims_match_terms(s, dims)(
        i,
    ) by {
        assert(t[i] == s[i]);
    }
    lemma_sum_congruent(dims_match_terms(t, dims), dims_match_terms(s, dims), s.len() as int);
    assert(t[s.len() as int] == p);
}

/// Number of pieces whose image has the given width and height.
fn count_dims(pieces: &[Piece], dims: (u32, u32)) -> (count: usize)
    ensures
        count == dims_count(pieces@, dims),
{
    let n = pieces.len();
    let mut count: usize = 0;
    for j in 0..n
        invariant
            n == pieces@.len(),
            count == sum_upto(dims_match_terms(pieces@, dims), j as int),
            count <= j,
    {
        if pieces[j].image.width() == dims.0 && pieces[j].image.height() == dims.1 {
            count = count + 1;
        }
    }
    count
}

/// The size shared by the most pieces. Among sizes that are equally common, the
/// one whose first piece comes first is taken.
pub fn find_most_common_dimensions(pieces: &[Piece]) -> (dims: (u32, u32))
    requires
        pieces@.len() > 0,
    ensures
        exists|k: int|
            0 <= k < pieces@.len() && dims == dims_of(#[trigger] pieces@[k]) && forall|j: int|
                0 <= j < k ==> dims_count(pieces@, dims_of(#[trigger] pieces@[j])) < dims_count(pieces@, dims),
        forall|j: int|
            0 <= j < pieces@.len() ==> dims_count(pieces@, dims_of(#[trigger] pieces@[j])) <= dims_count(
                pieces@,
                dims,
            ),
{
    let n = pieces.len();
    let mut best: (u32, u32) = (pieces[0].image.width(), pieces[0].image.height());
    let mut best_count = count_dims(pieces, best);
    let ghost mut k: int = 0;
    for i in 1..n
        invariant
            n == pieces@.len(),
            0 <= k < i,
            best == dims_of(pieces@[k]),
            best_count == dims_count(pieces@, best),
            forall|j: int| 0 <= j < k ==> dims_count(pieces@, dims_of(#[trigger] pieces@[j])) < best_count,
            forall|j: int| 0 <= j < i ==> dims_count(pieces@, dims_of(#[trigger] pieces@[j])) <= best_count,
    {
        let dims = (pieces[i].image.width(), pieces[i].image.height());
        let count = count_dims(pieces, dims);
        if count > best_count {
            best = dims;
            best_count = count;
            proof {
                k = i as int;
            }
        }
    }
    best
}

} // verus!
