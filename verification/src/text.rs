//! Text: what the standard library's string functions mean on sequences of
//! characters, and the ones that the store needs.

use vstd::prelude::*;
use vstd::string::*;
use vstd::utf8::*;

verus! {

/// `String::push` appends one character.
pub assume_specification[ String::push ](s: &mut String, c: char)
    ensures
        final(s)@ == old(s)@.push(c),
;

/// What `char::is_alphanumeric` answers for a character outside ASCII.
pub uninterp spec fn unicode_alphanumeric(c: char) -> bool;

pub open spec fn ascii(c: char) -> bool {
    (c as u32) < 128
}

pub open spec fn ascii_upper(c: char) -> bool {
    'A' <= c <= 'Z'
}

/// The letters and digits of ASCII.
pub open spec fn ascii_alphanumeric(c: char) -> bool {
    ||| '0' <= c <= '9'
    ||| 'A' <= c <= 'Z'
    ||| 'a' <= c <= 'z'
}

/// A letter or a digit.
pub open spec fn alphanumeric(c: char) -> bool {
    if ascii(c) {
        ascii_alphanumeric(c)
    } else {
        unicode_alphanumeric(c)
    }
}

/// A blank: tab to carriage return, space, next line, the spaces of other
/// scripts and widths, and the separators of lines and paragraphs.
pub open spec fn whitespace(c: char) -> bool {
    let n = c as u32;
    ||| 9 <= n <= 13
    ||| n == 0x20
    ||| n == 0x85
    ||| n == 0xa0
    ||| n == 0x1680
    ||| 0x2000 <= n <= 0x200a
    ||| n == 0x2028
    ||| n == 0x2029
    ||| n == 0x202f
    ||| n == 0x205f
    ||| n == 0x3000
}

/// `char::is_alphanumeric`: the letters and digits among the ASCII
/// characters, and a fixed set of the others.
pub assume_specification[ char::is_alphanumeric ](c: char) -> (r: bool)
    ensures
        ascii(c) ==> r == ascii_alphanumeric(c),
        !ascii(c) ==> r == unicode_alphanumeric(c),
;

/// `char::is_whitespace`: the characters with the Unicode property `White_Space`.
pub assume_specification[ char::is_whitespace ](c: char) -> (r: bool)
    ensures
        r == whitespace(c),
;

/// A character with ASCII capitals turned into small letters.
pub open spec fn lowered(c: char) -> char {
    if ascii_upper(c) {
        ((c as u32) + 32) as char
    } else {
        c
    }
}

/// What `char::to_lowercase` gives for a character outside ASCII.
pub uninterp spec fn unicode_lowercase(c: char) -> Seq<char>;

/// A character in small letters, which may take more than one.
pub open spec fn lowercase(c: char) -> Seq<char> {
    if ascii(c) {
        seq![lowered(c)]
    } else {
        unicode_lowercase(c)
    }
}

/// A text in small letters, character by character.
pub open spec fn lowercase_text(s: Seq<char>) -> Seq<char>
    decreases s.len(),
{
    if s.len() == 0 {
        Seq::empty()
    } else {
        lowercase_text(s.drop_last()) + lowercase(s.last())
    }
}

/// `char::to_lowercase`: a capital of ASCII becomes the small letter, every other
/// ASCII character stays, and for the others the result is fixed.
#[verifier::external_body]
fn lowercase_of(c: char) -> (r: Vec<char>)
    ensures
        ascii(c) ==> r@ == seq![lowered(c)],
        !ascii(c) ==> r@ == unicode_lowercase(c),
{
    c.to_lowercase().collect()
}

/// The characters of a text in small letters.
pub fn lowercase_characters(s: &str) -> (r: Vec<char>)
    ensures
        r@ == lowercase_text(s@),
{
    let chars: Vec<char> = characters(s);
    let mut r: Vec<char> = Vec::new();
    let mut i: usize = 0;
    while i < chars.len()
        invariant
            i <= chars@.len(),
            chars@ == s@,
            r@ == lowercase_text(s@.take(i as int)),
        decreases chars.len() - i,
    {
        proof {
            assert(s@.take(i + 1).drop_last() =~= s@.take(i as int));
        }
        let ghost before = r@;
        let letters: Vec<char> = lowercase_of(chars[i]);
        let mut j: usize = 0;
        while j < letters.len()
            invariant
                j <= letters@.len(),
                r@ =~= before + letters@.take(j as int),
            decreases letters.len() - j,
        {
            r.push(letters[j]);
            j = j + 1;
        }
        assert(letters@.take(j as int) =~= letters@);
        i = i + 1;
    }
    assert(s@.take(i as int) =~= s@);
    r
}

/// The characters of a text.
pub fn characters(s: &str) -> (r: Vec<char>)
    ensures
        r@ == s@,
{
    let mut r: Vec<char> = Vec::new();
    for c in it: s.chars()
        invariant
            r@ =~= s@.take(it.index()),
            it.seq() == s@,
    {
        r.push(c);
    }
    r
}

/// Whether two texts are the same.
pub fn same_text(a: &str, b: &str) -> (r: bool)
    ensures
        r == (a@ == b@),
{
    a.to_owned() == b.to_owned()
}

/// Nothing but blanks.
pub open spec fn blank(s: Seq<char>) -> bool {
    forall|i: int| 0 <= i < s.len() ==> whitespace(#[trigger] s[i])
}

/// Whether a text holds nothing but blanks.
pub fn is_blank(s: &str) -> (r: bool)
    ensures
        r == blank(s@),
{
    let chars: Vec<char> = characters(s);
    let mut i: usize = 0;
    while i < chars.len()
        invariant
            i <= chars.len(),
            chars@ == s@,
            forall|j: int| 0 <= j < i ==> whitespace(#[trigger] s@[j]),
        decreases chars.len() - i,
    {
        if !chars[i].is_whitespace() {
            assert(!whitespace(s@[i as int]));
            return false;
        }
        i = i + 1;
    }
    true
}

/// The texts of a list of strings.
pub open spec fn views(v: Seq<String>) -> Seq<Seq<char>> {
    v.map_values(|s: String| s@)
}

/// Texts put one behind the other with a separator between them.
pub open spec fn joined(parts: Seq<Seq<char>>, separator: Seq<char>) -> Seq<char>
    decreases parts.len(),
{
    if parts.len() == 0 {
        Seq::empty()
    } else if parts.len() == 1 {
        parts[0]
    } else {
        joined(parts.drop_last(), separator) + separator + parts.last()
    }
}

/// Texts put one behind the other with a separator between them.
pub fn join(parts: &[String], separator: &str) -> (r: String)
    ensures
        r@ == joined(views(parts@), separator@),
{
    let mut r: String = String::new();
    let mut i: usize = 0;
    while i < parts.len()
        invariant
            i <= parts.len(),
            r@ == joined(views(parts@).take(i as int), separator@),
        decreases parts.len() - i,
    {
        proof {
            let all: Seq<Seq<char>> = views(parts@);
            assert(all.take(i + 1).drop_last() =~= all.take(i as int));
            assert(all.take(i + 1).last() == parts@[i as int]@);
            if i == 0 {
                assert(all.take(1)[0] == parts@[0]@);
            }
        }
        if i > 0 {
            r.append(separator);
        }
        r.append(parts[i].as_str());
        assert(i == 0 ==> r@ =~= parts@[0]@);
        i = i + 1;
    }
    assert(views(parts@).take(i as int) =~= views(parts@));
    r
}

/// A text cut at every character for which `cut` holds. The pieces between two
/// cuts that stand side by side, before a first one or after a last one are
/// empty.
pub open spec fn pieces(s: Seq<char>, cut: spec_fn(char) -> bool) -> Seq<Seq<char>>
    decreases s.len(),
{
    if s.len() == 0 {
        seq![Seq::empty()]
    } else {
        let before = pieces(s.drop_last(), cut);
        if cut(s.last()) {
            before.push(Seq::empty())
        } else {
            before.drop_last().push(before.last().push(s.last()))
        }
    }
}

/// A text has at least one piece.
pub proof fn lemma_pieces_not_empty(s: Seq<char>, cut: spec_fn(char) -> bool)
    ensures
        pieces(s, cut).len() > 0,
    decreases s.len(),
{
    if s.len() > 0 {
        lemma_pieces_not_empty(s.drop_last(), cut);
    }
}

/// Holds of one character only.
pub open spec fn only(separator: char) -> spec_fn(char) -> bool {
    |c: char| c == separator
}

/// A text cut at a separator.
pub open spec fn split_on(s: Seq<char>, separator: char) -> Seq<Seq<char>> {
    pieces(s, only(separator))
}

/// A text cut at a separator.
pub fn split(s: &str, separator: char) -> (r: Vec<String>)
    ensures
        views(r@) == split_on(s@, separator),
        r@.len() > 0,
{
    let chars: Vec<char> = characters(s);
    let mut done: Vec<String> = Vec::new();
    let mut piece: String = String::new();
    let mut i: usize = 0;
    let ghost cut = only(separator);
    assert(views(done@).push(piece@) =~= pieces(s@.take(0), cut));
    while i < chars.len()
        invariant
            i <= chars.len(),
            chars@ == s@,
            cut == only(separator),
            views(done@).push(piece@) == pieces(s@.take(i as int), cut),
        decreases chars.len() - i,
    {
        let c: char = chars[i];
        let ghost before = views(done@).push(piece@);
        proof {
            assert(s@.take(i + 1).drop_last() =~= s@.take(i as int));
            assert(before.drop_last() =~= views(done@));
        }
        if c == separator {
            done.push(piece);
            assert(views(done@) =~= before);
            piece = String::new();
        } else {
            piece.push(c);
        }
        i = i + 1;
        assert(views(done@).push(piece@) =~= pieces(s@.take(i as int), cut));
    }
    assert(s@.take(i as int) =~= s@);
    let ghost before = views(done@).push(piece@);
    done.push(piece);
    assert(views(done@) =~= before);
    done
}

/// Cutting at a separator undoes joining with it, for texts that do not hold
/// it, if there is at least one of them.
pub proof fn lemma_split_joined(parts: Seq<Seq<char>>, separator: char)
    requires
        parts.len() > 0,
        forall|i: int| 0 <= i < parts.len() ==> !(#[trigger] parts[i]).contains(separator),
    ensures
        split_on(joined(parts, seq![separator]), separator) == parts,
    decreases parts.len(),
{
    let cut = only(separator);
    if parts.len() == 1 {
        lemma_pieces_uncut(Seq::empty(), parts[0], cut);
        assert(Seq::<char>::empty() + parts[0] =~= parts[0]);
        assert(pieces(Seq::empty(), cut) =~= seq![Seq::<char>::empty()]);
        assert(split_on(joined(parts, seq![separator]), separator) =~= parts);
    } else {
        let head = joined(parts.drop_last(), seq![separator]);
        lemma_split_joined(parts.drop_last(), separator);
        let cutoff = head + seq![separator];
        assert(cutoff.drop_last() =~= head);
        assert(pieces(cutoff, cut) =~= parts.drop_last().push(Seq::empty()));
        lemma_pieces_uncut(cutoff, parts.last(), cut);
        assert(pieces(cutoff + parts.last(), cut) =~= parts);
    }
}

/// Text without a cut lengthens the last piece.
proof fn lemma_pieces_uncut(s: Seq<char>, tail: Seq<char>, cut: spec_fn(char) -> bool)
    requires
        forall|i: int| 0 <= i < tail.len() ==> !cut(#[trigger] tail[i]),
    ensures
        pieces(s + tail, cut) == pieces(s, cut).drop_last().push(pieces(s, cut).last() + tail),
    decreases tail.len(),
{
    lemma_pieces_not_empty(s, cut);
    if tail.len() == 0 {
        assert(s + tail =~= s);
        assert(pieces(s, cut).last() + tail =~= pieces(s, cut).last());
        assert(pieces(s, cut).drop_last().push(pieces(s, cut).last()) =~= pieces(s, cut));
    } else {
        lemma_pieces_uncut(s, tail.drop_last(), cut);
        assert((s + tail).drop_last() =~= s + tail.drop_last());
        let last = pieces(s, cut).last();
        assert((last + tail.drop_last()).push(tail.last()) =~= last + tail);
        assert(pieces(s + tail, cut) =~= pieces(s, cut).drop_last().push(last + tail));
    }
}

/// What follows a prefix, if the text starts with it.
pub open spec fn after_prefix(s: Seq<char>, prefix: Seq<char>) -> Option<Seq<char>> {
    if prefix.len() <= s.len() && s.take(prefix.len() as int) == prefix {
        Some(s.skip(prefix.len() as int))
    } else {
        None
    }
}

/// What follows a prefix, if the text starts with it.
pub fn strip_prefix(s: &str, prefix: &str) -> (r: Option<String>)
    ensures
        match r {
            Some(rest) => after_prefix(s@, prefix@) == Some(rest@),
            None => after_prefix(s@, prefix@) is None,
        },
{
    let chars: Vec<char> = characters(s);
    let start: Vec<char> = characters(prefix);
    if start.len() > chars.len() {
        return None;
    }
    let mut i: usize = 0;
    while i < start.len()
        invariant
            i <= start.len() <= chars.len(),
            chars@ == s@,
            start@ == prefix@,
            forall|j: int| 0 <= j < i ==> #[trigger] s@[j] == prefix@[j],
        decreases start.len() - i,
    {
        if chars[i] != start[i] {
            assert(s@.take(prefix@.len() as int)[i as int] != prefix@[i as int]);
            return None;
        }
        i = i + 1;
    }
    assert(s@.take(prefix@.len() as int) =~= prefix@);
    Some(tail_from(&chars, i))
}

/// The text of the characters from `start` on.
fn tail_from(chars: &Vec<char>, start: usize) -> (r: String)
    requires
        start <= chars@.len(),
    ensures
        r@ == chars@.skip(start as int),
{
    let mut r: String = String::new();
    let mut i: usize = start;
    while i < chars.len()
        invariant
            start <= i <= chars.len(),
            r@ =~= chars@.subrange(start as int, i as int),
        decreases chars.len() - i,
    {
        r.push(chars[i]);
        i = i + 1;
    }
    r
}

/// A text without the `tail` characters at its end.
pub open spec fn trimmed_end(s: Seq<char>, tail: char) -> Seq<char>
    decreases s.len(),
{
    if s.len() > 0 && s.last() == tail {
        trimmed_end(s.drop_last(), tail)
    } else {
        s
    }
}

/// A text without the `tail` characters at its end.
pub fn trim_end(s: &str, tail: char) -> (r: String)
    ensures
        r@ == trimmed_end(s@, tail),
{
    let chars: Vec<char> = characters(s);
    let mut end: usize = chars.len();
    assert(s@.take(end as int) =~= s@);
    while end > 0 && chars[end - 1] == tail
        invariant
            end <= chars.len(),
            chars@ == s@,
            trimmed_end(s@, tail) == trimmed_end(s@.take(end as int), tail),
        decreases end,
    {
        assert(s@.take(end as int).drop_last() =~= s@.take(end - 1));
        end = end - 1;
    }
    let mut r: String = String::new();
    let mut i: usize = 0;
    while i < end
        invariant
            i <= end <= chars.len(),
            r@ =~= chars@.take(i as int),
        decreases end - i,
    {
        r.push(chars[i]);
        i = i + 1;
    }
    r
}

/// Whether `a` comes before `b` in the order of byte strings: at the first
/// place where they differ `a` has the smaller byte, or `a` ends there.
pub open spec fn bytes_before(a: Seq<u8>, b: Seq<u8>) -> bool {
    exists|k: int| #[trigger] before_at(a, b, k)
}

/// `a` and `b` agree before place `k`, and `a` is the smaller one there.
pub open spec fn before_at(a: Seq<u8>, b: Seq<u8>, k: int) -> bool {
    &&& 0 <= k <= a.len()
    &&& k < b.len()
    &&& a.take(k) == b.take(k)
    &&& k < a.len() ==> a[k] < b[k]
}

/// Whether text `a` comes before text `b`: the order of their UTF-8 bytes.
pub open spec fn text_before(a: Seq<char>, b: Seq<char>) -> bool {
    bytes_before(encode_utf8(a), encode_utf8(b))
}

proof fn lemma_bytes_before_asymmetric(a: Seq<u8>, b: Seq<u8>)
    requires
        bytes_before(a, b),
    ensures
        !bytes_before(b, a),
        a != b,
{
    let k = choose|k: int| #[trigger] before_at(a, b, k);
    if bytes_before(b, a) {
        let j = choose|j: int| #[trigger] before_at(b, a, j);
        if j < k {
            assert(a.take(k)[j] == b.take(k)[j]);
        } else if k < j {
            assert(b.take(j)[k] == a.take(j)[k]);
        }
    }
}

proof fn lemma_bytes_before_transitive(a: Seq<u8>, b: Seq<u8>, c: Seq<u8>)
    requires
        bytes_before(a, b),
        bytes_before(b, c),
    ensures
        bytes_before(a, c),
{
    let k = choose|k: int| #[trigger] before_at(a, b, k);
    let j = choose|j: int| #[trigger] before_at(b, c, j);
    let i: int = if k < j { k } else { j };
    assert(a.take(i) =~= c.take(i)) by {
        assert forall|n: int| 0 <= n < i implies a[n] == c[n] by {
            assert(a.take(k)[n] == b.take(k)[n]);
            assert(b.take(j)[n] == c.take(j)[n]);
        }
    }
    if k < j {
        assert(b.take(j)[k] == c.take(j)[k]);
    } else if j < k {
        assert(a.take(k)[j] == b.take(k)[j]);
    }
    assert(before_at(a, c, i));
}

/// The order of texts is a strict order.
pub proof fn lemma_text_before_asymmetric(a: Seq<char>, b: Seq<char>)
    requires
        text_before(a, b),
    ensures
        !text_before(b, a),
        a != b,
{
    lemma_bytes_before_asymmetric(encode_utf8(a), encode_utf8(b));
}

/// The order of texts is transitive.
pub proof fn lemma_text_before_transitive(a: Seq<char>, b: Seq<char>, c: Seq<char>)
    requires
        text_before(a, b),
        text_before(b, c),
    ensures
        text_before(a, c),
{
    lemma_bytes_before_transitive(encode_utf8(a), encode_utf8(b), encode_utf8(c));
}

/// How two values stand to each other in an order.
#[derive(Debug, Clone, Copy, PartialEq, Eq)]
pub enum Order {
    Before,
    Same,
    After,
}

/// How two texts stand to each other in the order of their UTF-8 bytes.
pub fn order_of(a: &str, b: &str) -> (r: Order)
    ensures
        match r {
            Order::Before => text_before(a@, b@),
            Order::Same => a@ == b@,
            Order::After => text_before(b@, a@),
        },
{
    let x: &[u8] = a.as_bytes();
    let y: &[u8] = b.as_bytes();
    let mut i: usize = 0;
    while i < x.len() && i < y.len() && x[i] == y[i]
        invariant
            i <= x@.len(),
            i <= y@.len(),
            x@.take(i as int) =~= y@.take(i as int),
        decreases x.len() - i,
    {
        i = i + 1;
    }
    if i == x.len() && i == y.len() {
        proof {
            assert(x@.take(i as int) =~= x@);
            assert(y@.take(i as int) =~= y@);
            encode_utf8_decode_utf8(a@);
            encode_utf8_decode_utf8(b@);
        }
        Order::Same
    } else if i == x.len() || (i < y.len() && x[i] < y[i]) {
        assert(before_at(x@, y@, i as int));
        Order::Before
    } else {
        assert(before_at(y@, x@, i as int));
        Order::After
    }
}

/// A digit of base sixteen, in small letters.
pub open spec fn digit(n: nat) -> char {
    if n < 10 {
        (48 + n) as char
    } else {
        (87 + n) as char
    }
}

fn digit_of(n: u64) -> (r: char)
    requires
        n < 16,
    ensures
        r == digit(n as nat),
{
    if n < 10 {
        (48 + n as u8) as char
    } else {
        (87 + n as u8) as char
    }
}

/// The digits of a number in a base, without leading zeros.
pub open spec fn digits(n: nat, base: nat) -> Seq<char>
    decreases n,
{
    if n < base || base < 2 {
        seq![digit(n)]
    } else {
        proof {
            assert(n / base < n) by (nonlinear_arith)
                requires
                    n > 0,
                    base >= 2,
            ;
        }
        digits(n / base, base).push(digit(n % base))
    }
}

/// The digits of a number, with zeros in front up to a width.
pub open spec fn padded_digits(n: nat, base: nat, width: nat) -> Seq<char> {
    let plain = digits(n, base);
    if plain.len() < width {
        Seq::new((width - plain.len()) as nat, |i: int| '0') + plain
    } else {
        plain
    }
}

/// The digits of a number in a base, without leading zeros.
pub fn digits_of(n: u64, base: u64) -> (r: String)
    requires
        2 <= base <= 16,
    ensures
        r@ == digits(n as nat, base as nat),
    decreases n,
{
    if n < base {
        let mut r: String = String::new();
        r.push(digit_of(n));
        r
    } else {
        assert(n / base < n) by (nonlinear_arith)
            requires
                n > 0,
                base >= 2,
        ;
        let mut r: String = digits_of(n / base, base);
        r.push(digit_of(n % base));
        r
    }
}

/// The digits of a number, with zeros in front up to a width.
pub fn padded_digits_of(n: u64, base: u64, width: usize) -> (r: String)
    requires
        2 <= base <= 16,
    ensures
        r@ == padded_digits(n as nat, base as nat, width as nat),
{
    let plain: String = digits_of(n, base);
    let length: usize = characters(plain.as_str()).len();
    let mut r: String = String::new();
    if length < width {
        let zeros: usize = width - length;
        let mut i: usize = 0;
        while i < zeros
            invariant
                i <= zeros,
                r@ =~= Seq::new(i as nat, |j: int| '0'),
            decreases zeros - i,
        {
            r.push('0');
            i = i + 1;
        }
    }
    let ghost zeros = r@;
    r.append(plain.as_str());
    proof {
        if length < width {
            assert(zeros =~= Seq::new((width - length) as nat, |i: int| '0'));
        } else {
            assert(r@ =~= plain@);
        }
    }
    r
}

/// The value of a digit.
pub open spec fn digit_value(c: char) -> int {
    if c >= 'a' {
        c as int - 87
    } else {
        c as int - 48
    }
}

/// The number that digits stand for.
pub open spec fn digits_value(s: Seq<char>, base: int) -> int
    decreases s.len(),
{
    if s.len() == 0 {
        0
    } else {
        digits_value(s.drop_last(), base) * base + digit_value(s.last())
    }
}

/// The digits of a number stand for it, and are digits.
pub proof fn lemma_digits_value(n: nat, base: nat)
    requires
        2 <= base <= 16,
    ensures
        digits_value(digits(n, base), base as int) == n,
        forall|i: int|
            0 <= i < digits(n, base).len() ==> '0' <= #[trigger] digits(n, base)[i] <= 'f',
    decreases n,
{
    let s = digits(n, base);
    if n < base {
        assert(s.drop_last() =~= Seq::empty());
        assert(digits_value(s.drop_last(), base as int) == 0);
        assert(0 * base as int == 0);
    } else {
        assert(n / base < n && n == (n / base) * base + n % base && n % base < base)
            by (nonlinear_arith)
            requires
                n > 0,
                base >= 2,
        ;
        lemma_digits_value(n / base, base);
        let front = digits(n / base, base);
        assert(s.drop_last() =~= front);
        assert forall|i: int| 0 <= i < s.len() implies '0' <= #[trigger] s[i] <= 'f' by {
            if i < front.len() {
                assert(s[i] == front[i]);
            }
        }
    }
}

/// Zeros in front do not change what digits stand for.
proof fn lemma_zeros_value(k: nat, s: Seq<char>, base: int)
    ensures
        digits_value(Seq::new(k, |i: int| '0') + s, base) == digits_value(s, base),
    decreases k + s.len(),
{
    let zeros = Seq::new(k, |i: int| '0');
    let all = zeros + s;
    if s.len() > 0 {
        assert(all.drop_last() =~= zeros + s.drop_last());
        lemma_zeros_value(k, s.drop_last(), base);
    } else if k > 0 {
        let fewer = Seq::new((k - 1) as nat, |i: int| '0');
        assert(all.drop_last() =~= fewer + s);
        lemma_zeros_value((k - 1) as nat, s, base);
        assert(all.last() == '0');
        assert(0 * base == 0);
    } else {
        assert(all =~= s);
    }
}

/// The digits of a number stand for it with zeros in front too.
pub proof fn lemma_padded_value(n: nat, base: nat, width: nat)
    requires
        2 <= base <= 16,
    ensures
        digits_value(padded_digits(n, base, width), base as int) == n,
{
    let plain = digits(n, base);
    lemma_digits_value(n, base);
    if plain.len() < width {
        lemma_zeros_value((width - plain.len()) as nat, plain, base as int);
    }
}

/// A number in decimal, with a minus sign where it is negative.
pub open spec fn decimal(n: int) -> Seq<char> {
    if n < 0 {
        seq!['-'] + digits((-n) as nat, 10)
    } else {
        digits(n as nat, 10)
    }
}

/// A number in decimal, with a minus sign where it is negative.
pub fn decimal_of(n: i64) -> (r: String)
    ensures
        r@ == decimal(n as int),
{
    if n < 0 {
        let mut r: String = String::new();
        r.push('-');
        let size: u64 = if n == i64::MIN {
            0x8000_0000_0000_0000
        } else {
            (-n) as u64
        };
        r.append(digits_of(size, 10).as_str());
        assert(r@ =~= decimal(n as int));
        r
    } else {
        digits_of(n as u64, 10)
    }
}

/// The bytes of a sequence in base sixteen, two digits each.
pub open spec fn hexadecimal(bytes: Seq<u8>) -> Seq<char> {
    Seq::new(
        2 * bytes.len(),
        |i: int|
            if i % 2 == 0 {
                digit((bytes[i / 2] / 16) as nat)
            } else {
                digit((bytes[i / 2] % 16) as nat)
            },
    )
}

/// The bytes of a sequence in base sixteen, two digits each.
pub fn hexadecimal_of(bytes: &[u8]) -> (r: String)
    ensures
        r@ == hexadecimal(bytes@),
{
    let mut r: String = String::new();
    let mut i: usize = 0;
    while i < bytes.len()
        invariant
            i <= bytes@.len(),
            r@ =~= hexadecimal(bytes@.take(i as int)),
        decreases bytes.len() - i,
    {
        let high: u64 = bytes[i] as u64 / 16;
        let low: u64 = bytes[i] as u64 % 16;
        r.push(digit_of(high));
        r.push(digit_of(low));
        i = i + 1;
    }
    assert(bytes@.take(i as int) =~= bytes@);
    r
}

/// A text that is cut somewhere has the pieces of its two parts.
pub proof fn lemma_pieces_parted(a: Seq<char>, c: char, b: Seq<char>, cut: spec_fn(char) -> bool)
    requires
        cut(c),
    ensures
        pieces(a.push(c) + b, cut) == pieces(a, cut) + pieces(b, cut),
    decreases b.len(),
{
    lemma_pieces_not_empty(b, cut);
    if b.len() == 0 {
        assert(a.push(c) + b =~= a.push(c));
        assert(a.push(c).drop_last() =~= a);
        assert(pieces(a.push(c), cut) =~= pieces(a, cut) + pieces(b, cut));
    } else {
        lemma_pieces_parted(a, c, b.drop_last(), cut);
        lemma_pieces_not_empty(b.drop_last(), cut);
        assert((a.push(c) + b).drop_last() =~= a.push(c) + b.drop_last());
        assert((a.push(c) + b).last() == b.last());
        assert(pieces(a.push(c) + b, cut) =~= pieces(a, cut) + pieces(b, cut));
    }
}

/// A text without cuts is its only piece.
pub proof fn lemma_one_piece(s: Seq<char>, cut: spec_fn(char) -> bool)
    requires
        forall|i: int| 0 <= i < s.len() ==> !cut(#[trigger] s[i]),
    ensures
        pieces(s, cut) == seq![s],
{
    lemma_pieces_uncut(Seq::empty(), s, cut);
    assert(Seq::<char>::empty() + s =~= s);
    assert(pieces(Seq::empty(), cut) =~= seq![Seq::<char>::empty()]);
    assert(pieces(s, cut) =~= seq![s]);
}

/// Texts are joined part by part.
pub proof fn lemma_joined_parted(
    a: Seq<Seq<char>>,
    b: Seq<Seq<char>>,
    separator: Seq<char>,
)
    requires
        a.len() > 0,
        b.len() > 0,
    ensures
        joined(a + b, separator) == joined(a, separator) + separator + joined(b, separator),
    decreases b.len(),
{
    assert((a + b).drop_last() =~= a + b.drop_last());
    if b.len() == 1 {
        assert(a + b.drop_last() =~= a);
        assert((a + b).last() == b[0]);
    } else {
        lemma_joined_parted(a, b.drop_last(), separator);
        assert(joined(a + b, separator) =~= joined(a, separator) + separator + joined(
            b,
            separator,
        ));
    }
}

/// The parts of a text are put in small letters each for itself.
pub proof fn lemma_lowercase_parted(a: Seq<char>, b: Seq<char>)
    ensures
        lowercase_text(a + b) == lowercase_text(a) + lowercase_text(b),
    decreases b.len(),
{
    if b.len() == 0 {
        assert(a + b =~= a);
        assert(lowercase_text(a) + lowercase_text(b) =~= lowercase_text(a));
    } else {
        lemma_lowercase_parted(a, b.drop_last());
        assert((a + b).drop_last() =~= a + b.drop_last());
        assert(lowercase_text(a + b) =~= lowercase_text(a) + lowercase_text(b));
    }
}

/// A text of ASCII keeps its length in small letters: a capital becomes the letter 32
/// places further on, and every other character stays.
pub proof fn lemma_lowercase_of_ascii(s: Seq<char>)
    requires
        forall|i: int| 0 <= i < s.len() ==> (#[trigger] s[i]) as int <= 127,
    ensures
        lowercase_text(s).len() == s.len(),
        forall|i: int|
            0 <= i < s.len() ==> (#[trigger] lowercase_text(s)[i]) as int == if 65 <= s[i] as int
                && s[i] as int <= 90 {
                s[i] as int + 32
            } else {
                s[i] as int
            },
    decreases s.len(),
{
    if s.len() > 0 {
        let front = s.drop_last();
        assert forall|i: int| 0 <= i < front.len() implies (#[trigger] front[i]) as int <= 127 by {
            assert(front[i] == s[i]);
        }
        lemma_lowercase_of_ascii(front);
        let last = s[s.len() - 1];
        assert(last as int <= 127);
        assert(lowercase_text(s) =~= lowercase_text(front).push(lowered(last)));
        assert forall|i: int| 0 <= i < s.len() implies (#[trigger] lowercase_text(s)[i]) as int
            == if 65 <= s[i] as int && s[i] as int <= 90 {
            s[i] as int + 32
        } else {
            s[i] as int
        } by {
            if i < front.len() {
                assert(lowercase_text(s)[i] == lowercase_text(front)[i]);
            }
        }
    }
}

/// A text is blank if it holds nothing but tabs, line ends, and the spaces and
/// separators of Unicode.
pub proof fn lemma_blank_texts(s: Seq<char>)
    ensures
        blank(s) <==> forall|i: int|
            0 <= i < s.len() ==> {
                let n = (#[trigger] s[i]) as u32;
                9 <= n <= 13 || n == 32 || n == 133 || n == 160 || n == 5760 || 8192 <= n <= 8202
                    || n == 8232 || n == 8233 || n == 8239 || n == 8287 || n == 12288
            },
{
}

/// What is left of a text whose end is trimmed does not end so, and with what was
/// taken away it is the text.
pub proof fn lemma_trimmed_end(s: Seq<char>, tail: char)
    ensures
        trimmed_end(s, tail).len() > 0 ==> trimmed_end(s, tail).last() != tail,
        trimmed_end(s, tail).len() <= s.len(),
        trimmed_end(s, tail) == s.take(trimmed_end(s, tail).len() as int),
        forall|i: int| trimmed_end(s, tail).len() <= i < s.len() ==> #[trigger] s[i] == tail,
    decreases s.len(),
{
    if s.len() > 0 && s.last() == tail {
        let front = s.drop_last();
        lemma_trimmed_end(front, tail);
        let n = trimmed_end(front, tail).len() as int;
        assert(front.take(n) =~= s.take(n));
        assert forall|i: int| n <= i < s.len() implies #[trigger] s[i] == tail by {
            if i < front.len() {
                assert(front[i] == s[i]);
            }
        }
    } else {
        assert(s.take(s.len() as int) =~= s);
    }
}

/// What follows a prefix is what stands behind it.
pub proof fn lemma_after_prefix(prefix: Seq<char>, rest: Seq<char>)
    ensures
        after_prefix(prefix + rest, prefix) == Some(rest),
{
    assert((prefix + rest).take(prefix.len() as int) =~= prefix);
    assert((prefix + rest).skip(prefix.len() as int) =~= rest);
}

/// Only a text that starts with a prefix has something behind it.
pub proof fn lemma_without_prefix(s: Seq<char>, prefix: Seq<char>)
    ensures
        after_prefix(s, prefix) matches Some(rest) ==> s == prefix + rest,
{
    if prefix.len() <= s.len() && s.take(prefix.len() as int) == prefix {
        assert(s =~= prefix + s.skip(prefix.len() as int));
    }
}

/// A byte is written as two digits of base sixteen that stand for it.
pub proof fn lemma_hexadecimal_value(bytes: Seq<u8>, i: int)
    requires
        0 <= i < bytes.len(),
    ensures
        hexadecimal(bytes).len() == 2 * bytes.len(),
        digits_value(hexadecimal(bytes).subrange(2 * i, 2 * i + 2), 16) == bytes[i],
        forall|k: int|
            0 <= k < hexadecimal(bytes).len() ==> '0' <= #[trigger] hexadecimal(bytes)[k] <= '9'
                || 'a' <= hexadecimal(bytes)[k] <= 'f',
{
    let two = hexadecimal(bytes).subrange(2 * i, 2 * i + 2);
    let byte = bytes[i];
    assert((2 * i) / 2 == i && (2 * i + 1) / 2 == i);
    assert(two[0] == digit((byte / 16) as nat));
    assert(two[1] == digit((byte % 16) as nat));
    assert(two.drop_last().drop_last() =~= Seq::empty());
    reveal_with_fuel(digits_value, 3);
    assert(two.drop_last().last() == two[0]);
}

/// A number in decimal is its size in digits of base ten, behind a minus sign where it
/// is negative.
pub proof fn lemma_decimal_value(n: int)
    ensures
        n >= 0 ==> digits_value(decimal(n), 10) == n,
        n < 0 ==> decimal(n)[0] == '-' && digits_value(decimal(n).skip(1), 10) == -n,
{
    if n >= 0 {
        lemma_digits_value(n as nat, 10);
    } else {
        lemma_digits_value((-n) as nat, 10);
        assert(decimal(n).skip(1) =~= digits((-n) as nat, 10));
    }
}

} // verus!
