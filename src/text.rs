use vstd::prelude::*;

verus! {

pub const LINE_FEED: u8 = 10;

pub const HASH: u8 = 35;

pub const PLUS: u8 = 43;

pub const MINUS: u8 = 45;

pub const DIGIT_ZERO: u8 = 48;

pub const DIGIT_NINE: u8 = 57;

/// Blank bytes that are trimmed from both ends of a line or an item.
pub open spec fn is_blank(b: u8) -> bool {
    b == 32 || b == 9 || b == 10 || b == 11 || b == 12 || b == 13
}

/// The pieces of `s` between occurrences of `sep`; there is always one more
/// piece than there are separators.
pub open spec fn split_on(s: Seq<u8>, sep: u8) -> Seq<Seq<u8>>
    decreases s.len(),
{
    if s.len() == 0 {
        seq![Seq::empty()]
    } else {
        let prev = split_on(s.drop_last(), sep);
        if s.last() == sep {
            prev.push(Seq::empty())
        } else {
            prev.update(prev.len() - 1, prev.last().push(s.last()))
        }
    }
}

/// `s` without its leading blanks.
pub open spec fn trim_start(s: Seq<u8>) -> Seq<u8>
    decreases s.len(),
{
    if s.len() > 0 && is_blank(s[0]) {
        trim_start(s.drop_first())
    } else {
        s
    }
}

/// `s` without its trailing blanks.
pub open spec fn trim_end(s: Seq<u8>) -> Seq<u8>
    decreases s.len(),
{
    if s.len() > 0 && is_blank(s.last()) {
        trim_end(s.drop_last())
    } else {
        s
    }
}

/// `s` without blanks at either end.
pub open spec fn trim(s: Seq<u8>) -> Seq<u8> {
    trim_end(trim_start(s))
}

/// A trimmed line that carries content: not empty, not a comment.
pub open spec fn is_significant(l: Seq<u8>) -> bool {
    l.len() > 0 && l[0] != HASH
}

/// The trimmed lines among `ls` that carry content, in order.
pub open spec fn kept_lines(ls: Seq<Seq<u8>>) -> Seq<Seq<u8>>
    decreases ls.len(),
{
    if ls.len() == 0 {
        Seq::empty()
    } else {
        let rest = kept_lines(ls.drop_last());
        let t = trim(ls.last());
        if is_significant(t) {
            rest.push(t)
        } else {
            rest
        }
    }
}

/// The significant lines of a text: each line trimmed, blank lines and
/// comment lines left out.
pub open spec fn text_lines(t: Seq<u8>) -> Seq<Seq<u8>> {
    kept_lines(split_on(t, LINE_FEED))
}

pub open spec fn is_digit(b: u8) -> bool {
    DIGIT_ZERO <= b <= DIGIT_NINE
}

pub open spec fn all_digits(s: Seq<u8>) -> bool {
    forall|i: int| 0 <= i < s.len() ==> is_digit(#[trigger] s[i])
}

/// The value of a string of decimal digits.
pub open spec fn digits_value(s: Seq<u8>) -> nat
    decreases s.len(),
{
    if s.len() == 0 {
        0
    } else {
        10 * digits_value(s.drop_last()) + (s.last() - DIGIT_ZERO) as nat
    }
}

/// The value of an unsigned decimal numeral: an optional `+`, then at least
/// one digit.
pub open spec fn numeral(s: Seq<u8>) -> Option<nat> {
    let d = if s.len() > 0 && s[0] == PLUS {
        s.drop_first()
    } else {
        s
    };
    if d.len() > 0 && all_digits(d) {
        Some(digits_value(d))
    } else {
        None
    }
}

/// A decimal integer of any size: an optional `+` or `-`, then at least one
/// digit. It is given as whether it carries a minus sign, and its magnitude.
pub open spec fn signed_numeral(s: Seq<u8>) -> Option<(bool, nat)> {
    let neg = s.len() > 0 && s[0] == MINUS;
    let d = if s.len() > 0 && (s[0] == PLUS || s[0] == MINUS) {
        s.drop_first()
    } else {
        s
    };
    if d.len() > 0 && all_digits(d) {
        Some((neg, digits_value(d)))
    } else {
        None
    }
}

/// `v`, or `cap` where `v` is larger.
pub open spec fn capped(v: nat, cap: nat) -> nat {
    if v > cap {
        cap
    } else {
        v
    }
}

/// The value of `s` read as a numeral, where it is one and at most `max`.
pub open spec fn numeral_at_most(s: Seq<u8>, max: nat) -> Option<nat> {
    match numeral(s) {
        Some(v) => if v <= max {
            Some(v)
        } else {
            None
        },
        None => None,
    }
}

/// A byte range of a text.
pub open spec fn piece(t: Seq<u8>, r: (usize, usize)) -> Seq<u8> {
    t.subrange(r.0 as int, r.1 as int)
}

pub open spec fn valid_range(t: Seq<u8>, r: (usize, usize)) -> bool {
    r.0 <= r.1 <= t.len()
}

proof fn lemma_split_on_nonempty(s: Seq<u8>, sep: u8)
    ensures
        split_on(s, sep).len() >= 1,
    decreases s.len(),
{
    if s.len() > 0 {
        lemma_split_on_nonempty(s.drop_last(), sep);
    }
}

/// The piece `[a, b)` of `t` with blanks at both ends left out.
pub fn trim_range(t: &[u8], a: usize, b: usize) -> (r: (usize, usize))
    requires
        a <= b <= t@.len(),
    ensures
        a <= r.0 <= r.1 <= b,
        piece(t@, r) == trim(t@.subrange(a as int, b as int)),
{
    let mut s = a;
    while s < b && is_blank_byte(t[s])
        invariant
            a <= s <= b,
            b <= t@.len(),
            trim_start(t@.subrange(a as int, b as int)) == trim_start(t@.subrange(s as int, b as int)),
        decreases b - s,
    {
        assert(t@.subrange(s as int, b as int).drop_first() =~= t@.subrange(s + 1, b as int));
        s = s + 1;
    }
    let mut e = b;
    while e > s && is_blank_byte(t[e - 1])
        invariant
            a <= s <= e <= b,
            b <= t@.len(),
            trim_end(t@.subrange(s as int, b as int)) == trim_end(t@.subrange(s as int, e as int)),
        decreases e - s,
    {
        assert(t@.subrange(s as int, e as int).drop_last() =~= t@.subrange(s as int, e - 1));
        e = e - 1;
    }
    (s, e)
}

fn is_blank_byte(b: u8) -> (r: bool)
    ensures
        r == is_blank(b),
{
    b == 32 || b == 9 || b == 10 || b == 11 || b == 12 || b == 13
}

/// Splits `[a, b)` of `t` at each `sep`, as `split_on` does.
pub fn split_range(t: &[u8], a: usize, b: usize, sep: u8) -> (r: Vec<(usize, usize)>)
    requires
        a <= b <= t@.len(),
    ensures
        r@.len() == split_on(t@.subrange(a as int, b as int), sep).len(),
        forall|k: int|
            0 <= k < r@.len() ==> a <= (#[trigger] r@[k]).0 <= r@[k].1 <= b && piece(t@, r@[k])
                == split_on(t@.subrange(a as int, b as int), sep)[k],
{
    let mut r: Vec<(usize, usize)> = Vec::new();
    let mut start = a;
    let mut k = a;
    while k < b
        invariant
            a <= start <= k <= b,
            b <= t@.len(),
            ({
                let ps = split_on(t@.subrange(a as int, k as int), sep);
                &&& ps.len() == r@.len() + 1
                &&& forall|m: int|
                    0 <= m < r@.len() ==> a <= (#[trigger] r@[m]).0 <= r@[m].1 <= start && piece(
                        t@,
                        r@[m],
                    ) == ps[m]
                &&& ps.last() == t@.subrange(start as int, k as int)
            }),
        decreases b - k,
    {
        let ghost old_r = r@;
        let ghost ps = split_on(t@.subrange(a as int, k as int), sep);
        assert(t@.subrange(a as int, k + 1).drop_last() =~= t@.subrange(a as int, k as int));
        if t[k] == sep {
            r.push((start, k));
            start = k + 1;
            assert(t@.subrange(start as int, k + 1) =~= Seq::<u8>::empty());
        } else {
            assert(t@.subrange(start as int, k + 1) =~= t@.subrange(start as int, k as int).push(
                t@[k as int],
            ));
        }
        k = k + 1;
        let ghost ps2 = split_on(t@.subrange(a as int, k as int), sep);
        assert forall|m: int| 0 <= m < r@.len() implies a <= (#[trigger] r@[m]).0 <= r@[m].1
            <= start && piece(t@, r@[m]) == ps2[m] by {
            if m < old_r.len() {
                assert(r@[m] == old_r[m]);
            }
        }
    }
    proof {
        lemma_split_on_nonempty(t@.subrange(a as int, k as int), sep);
    }
    r.push((start, b));
    let ghost ps = split_on(t@.subrange(a as int, b as int), sep);
    assert forall|m: int| 0 <= m < r@.len() implies a <= (#[trigger] r@[m]).0 <= r@[m].1 <= b
        && piece(t@, r@[m]) == ps[m] by {
        if m < r@.len() - 1 {
        }
    }
    r
}

/// The significant lines of `t`, as ranges of `t`.
pub fn significant_lines(t: &[u8]) -> (r: Vec<(usize, usize)>)
    ensures
        r@.len() == text_lines(t@).len(),
        forall|k: int|
            0 <= k < r@.len() ==> valid_range(t@, #[trigger] r@[k]) && piece(t@, r@[k])
                == text_lines(t@)[k],
{
    let raw = split_range(t, 0, t.len(), LINE_FEED);
    assert(t@.subrange(0, t@.len() as int) =~= t@);
    let ghost ls = split_on(t@, LINE_FEED);
    let mut r: Vec<(usize, usize)> = Vec::new();
    let mut k: usize = 0;
    while k < raw.len()
        invariant
            0 <= k <= raw@.len(),
            raw@.len() == ls.len(),
            forall|m: int|
                0 <= m < raw@.len() ==> (#[trigger] raw@[m]).0 <= raw@[m].1 <= t@.len() && piece(
                    t@,
                    raw@[m],
                ) == ls[m],
            r@.len() == kept_lines(ls.take(k as int)).len(),
            forall|m: int|
                0 <= m < r@.len() ==> valid_range(t@, #[trigger] r@[m]) && piece(t@, r@[m])
                    == kept_lines(ls.take(k as int))[m],
        decreases raw@.len() - k,
    {
        let ghost old_r = r@;
        assert(ls.take(k + 1).drop_last() =~= ls.take(k as int));
        assert(ls.take(k + 1).last() == ls[k as int]);
        let (s, e) = raw[k];
        let (a, b) = trim_range(t, s, e);
        if a < b && t[a] != HASH {
            r.push((a, b));
        }
        k = k + 1;
        assert forall|m: int| 0 <= m < r@.len() implies valid_range(t@, #[trigger] r@[m])
            && piece(t@, r@[m]) == kept_lines(ls.take(k as int))[m] by {
            if m < old_r.len() {
                assert(r@[m] == old_r[m]);
            }
        }
    }
    assert(ls.take(k as int) =~= ls);
    r
}

proof fn lemma_digits_value_grows(s: Seq<u8>, k: int)
    requires
        0 <= k <= s.len(),
        all_digits(s),
    ensures
        digits_value(s.take(k)) <= digits_value(s),
    decreases s.len() - k,
{
    if k < s.len() {
        lemma_digits_value_grows(s, k + 1);
        assert(s.take(k + 1).drop_last() =~= s.take(k));
    } else {
        assert(s.take(k) =~= s);
    }
}

/// Reads `[a, b)` of `t` as a numeral of at most `max`.
pub fn parse_number(t: &[u8], a: usize, b: usize, max: u64) -> (r: Option<u64>)
    requires
        a <= b <= t@.len(),
    ensures
        match numeral_at_most(t@.subrange(a as int, b as int), max as nat) {
            Some(v) => r == Some(v as u64),
            None => r is None,
        },
{
    let ghost s = t@.subrange(a as int, b as int);
    let mut start = a;
    if a < b && t[a] == PLUS {
        start = a + 1;
    }
    let ghost d = t@.subrange(start as int, b as int);
    assert(d =~= (if s.len() > 0 && s[0] == PLUS {
        s.drop_first()
    } else {
        s
    }));
    if start == b {
        return None;
    }
    let mut val: u64 = 0;
    let mut k = start;
    while k < b
        invariant
            start <= k <= b <= t@.len(),
            d == t@.subrange(start as int, b as int),
            s == t@.subrange(a as int, b as int),
            d == (if s.len() > 0 && s[0] == PLUS {
                s.drop_first()
            } else {
                s
            }),
            all_digits(t@.subrange(start as int, k as int)),
            val as nat == digits_value(t@.subrange(start as int, k as int)),
            val <= max,
        decreases b - k,
    {
        let c = t[k];
        if c < DIGIT_ZERO || c > DIGIT_NINE {
            assert(!is_digit(d[k - start]));
            assert(!all_digits(d));
            return None;
        }
        let dv = (c - DIGIT_ZERO) as u64;
        assert(t@.subrange(start as int, k + 1).drop_last() =~= t@.subrange(start as int, k as int));
        assert(d.take(k + 1 - start) =~= t@.subrange(start as int, k + 1));
        if val > max / 10 {
            assert(val * 10 + dv > max) by (nonlinear_arith)
                requires
                    val > max / 10,
            ;
            proof {
                if all_digits(d) {
                    lemma_digits_value_grows(d, k + 1 - start);
                }
            }
            return None;
        }
        assert(val * 10 <= max) by (nonlinear_arith)
            requires
                val <= max / 10,
        ;
        if dv > max - val * 10 {
            assert(digits_value(t@.subrange(start as int, k + 1)) == val * 10 + dv);
            proof {
                if all_digits(d) {
                    lemma_digits_value_grows(d, k + 1 - start);
                }
            }
            return None;
        }
        val = val * 10 + dv;
        k = k + 1;
    }
    assert(t@.subrange(start as int, k as int) =~= d);
    Some(val)
}

/// Whether the range `r` of `t` holds exactly `tag`.
pub fn range_equals(t: &[u8], r: (usize, usize), tag: &Vec<u8>) -> (res: bool)
    requires
        valid_range(t@, r),
    ensures
        res == (piece(t@, r) == tag@),
{
    if r.1 - r.0 != tag.len() {
        return false;
    }
    let mut k: usize = 0;
    while k < tag.len()
        invariant
            valid_range(t@, r),
            r.1 - r.0 == tag@.len(),
            k <= tag@.len(),
            forall|m: int| 0 <= m < k ==> t@[r.0 + m] == tag@[m],
        decreases tag@.len() - k,
    {
        if t[r.0 + k] != tag[k] {
            assert(piece(t@, r)[k as int] != tag@[k as int]);
            return false;
        }
        k = k + 1;
    }
    assert(piece(t@, r) =~= tag@);
    true
}

/// The position of the first line of `ls` equal to `tag`.
pub open spec fn first_index(ls: Seq<Seq<u8>>, tag: Seq<u8>) -> Option<int>
    decreases ls.len(),
{
    if ls.len() == 0 {
        None
    } else {
        match first_index(ls.drop_last(), tag) {
            Some(i) => Some(i),
            None => if ls.last() == tag {
                Some(ls.len() - 1)
            } else {
                None
            },
        }
    }
}

pub proof fn lemma_first_index_bounds(ls: Seq<Seq<u8>>, tag: Seq<u8>)
    ensures
        first_index(ls, tag) matches Some(i) ==> 0 <= i < ls.len() && ls[i] == tag,
    decreases ls.len(),
{
    if ls.len() > 0 {
        lemma_first_index_bounds(ls.drop_last(), tag);
    }
}

/// The position among `lines` (ranges of `t`) of the first one equal to `tag`.
pub fn find_line(t: &[u8], lines: &Vec<(usize, usize)>, tag: &Vec<u8>, Ghost(ls): Ghost<
    Seq<Seq<u8>>,
>) -> (r: Option<usize>)
    requires
        lines@.len() == ls.len(),
        forall|k: int|
            0 <= k < lines@.len() ==> valid_range(t@, #[trigger] lines@[k]) && piece(
                t@,
                lines@[k],
            ) == ls[k],
    ensures
        match first_index(ls, tag@) {
            Some(i) => r == Some(i as usize),
            None => r is None,
        },
        r matches Some(i) ==> i < ls.len() && first_index(ls, tag@) == Some(i as int),
{
    proof {
        lemma_first_index_bounds(ls, tag@);
    }
    let mut k: usize = 0;
    while k < lines.len()
        invariant
            k <= lines@.len() == ls.len(),
            forall|m: int|
                0 <= m < lines@.len() ==> valid_range(t@, #[trigger] lines@[m]) && piece(
                    t@,
                    lines@[m],
                ) == ls[m],
            first_index(ls.take(k as int), tag@) is None,
        decreases lines@.len() - k,
    {
        assert(ls.take(k + 1).drop_last() =~= ls.take(k as int));
        if range_equals(t, lines[k], tag) {
            proof {
                lemma_first_index_prefix(ls, tag@, k as int);
            }
            return Some(k);
        }
        k = k + 1;
    }
    assert(ls.take(k as int) =~= ls);
    None
}

proof fn lemma_first_index_prefix(ls: Seq<Seq<u8>>, tag: Seq<u8>, k: int)
    requires
        0 <= k < ls.len(),
        first_index(ls.take(k), tag) is None,
        ls[k] == tag,
    ensures
        first_index(ls, tag) == Some(k),
    decreases ls.len(),
{
    if k < ls.len() - 1 {
        assert(ls.drop_last().take(k) =~= ls.take(k));
        lemma_first_index_prefix(ls.drop_last(), tag, k);
    } else {
        assert(ls.drop_last() =~= ls.take(k));
    }
}

/// Reads `[a, b)` of `t` as a decimal integer of any size: whether it is
/// negative, and its magnitude, or `cap` where the magnitude is larger.
pub fn parse_signed(t: &[u8], a: usize, b: usize, cap: u64) -> (r: Option<(bool, u64)>)
    requires
        a <= b <= t@.len(),
        cap <= 1000,
    ensures
        match signed_numeral(t@.subrange(a as int, b as int)) {
            Some((neg, v)) => r == Some((neg, capped(v, cap as nat) as u64)),
            None => r is None,
        },
{
    let ghost s = t@.subrange(a as int, b as int);
    let neg = a < b && t[a] == MINUS;
    let mut start = a;
    if a < b && (t[a] == PLUS || t[a] == MINUS) {
        start = a + 1;
    }
    let ghost d = t@.subrange(start as int, b as int);
    assert(d =~= (if s.len() > 0 && (s[0] == PLUS || s[0] == MINUS) {
        s.drop_first()
    } else {
        s
    }));
    if start == b {
        return None;
    }
    let mut val: u64 = 0;
    let mut k = start;
    while k < b
        invariant
            start <= k <= b <= t@.len(),
            cap <= 1000,
            d == t@.subrange(start as int, b as int),
            s == t@.subrange(a as int, b as int),
            d == (if s.len() > 0 && (s[0] == PLUS || s[0] == MINUS) {
                s.drop_first()
            } else {
                s
            }),
            all_digits(t@.subrange(start as int, k as int)),
            val as nat == capped(digits_value(t@.subrange(start as int, k as int)), cap as nat + 1),
        decreases b - k,
    {
        let c = t[k];
        if c < DIGIT_ZERO || c > DIGIT_NINE {
            assert(!is_digit(d[k - start]));
            assert(!all_digits(d));
            return None;
        }
        let dv = (c - DIGIT_ZERO) as u64;
        assert(t@.subrange(start as int, k + 1).drop_last() =~= t@.subrange(start as int, k as int));
        if val > cap {
            val = cap + 1;
        } else {
            val = val * 10 + dv;
            if val > cap {
                val = cap + 1;
            }
        }
        k = k + 1;
    }
    assert(t@.subrange(start as int, k as int) =~= d);
    if val > cap {
        Some((neg, cap))
    } else {
        Some((neg, val))
    }
}

} // verus!
