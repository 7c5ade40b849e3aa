//! Comma-separated fields and unsigned decimal numbers, read from bytes.
use vstd::prelude::*;

verus! {

pub const COMMA: u8 = 44;

pub const PLUS: u8 = 43;

pub open spec fn is_digit(b: u8) -> bool {
    48 <= b <= 57
}

pub open spec fn all_digits(s: Seq<u8>) -> bool {
    forall|i: int| 0 <= i < s.len() ==> #[trigger] is_digit(s[i])
}

/// The number written by the decimal digits `s`, most significant first.
pub open spec fn digits_value(s: Seq<u8>) -> int
    decreases s.len(),
{
    if s.len() == 0 {
        0
    } else {
        digits_value(s.drop_last()) * 10 + (s.last() - 48)
    }
}

/// The unsigned number that `s` writes: an optional `+`, then one digit or
/// more, for a value of at most `max`.
pub open spec fn unsigned_value(s: Seq<u8>, max: int) -> Option<int> {
    let d = if s.len() > 0 && s[0] == PLUS {
        s.drop_first()
    } else {
        s
    };
    if d.len() > 0 && all_digits(d) && digits_value(d) <= max {
        Some(digits_value(d))
    } else {
        None
    }
}

/// The position of the first comma at or after `start`, or the length of `s`.
pub open spec fn next_comma(s: Seq<u8>, start: int) -> int
    decreases s.len() - start,
{
    if start >= s.len() || start < 0 {
        s.len() as int
    } else if s[start] == COMMA {
        start
    } else {
        next_comma(s, start + 1)
    }
}

/// The fields of `s` from `start` on, split at each comma. An empty text has
/// one empty field; a comma at the end gives an empty last field.
pub open spec fn fields_from(s: Seq<u8>, start: int) -> Seq<Seq<u8>>
    decreases s.len() - start,
{
    let end = next_comma(s, start);
    if start < 0 || end >= s.len() || end < start {
        seq![s.subrange(start, s.len() as int)]
    } else {
        seq![s.subrange(start, end)] + fields_from(s, end + 1)
    }
}

/// The comma-separated fields of `s`.
pub open spec fn fields(s: Seq<u8>) -> Seq<Seq<u8>> {
    fields_from(s, 0)
}

proof fn lemma_drop_last_digits(s: Seq<u8>)
    requires
        all_digits(s),
        s.len() > 0,
    ensures
        all_digits(s.drop_last()),
        is_digit(s.last()),
{
    assert(is_digit(s[s.len() - 1]));
    assert forall|i: int| 0 <= i < s.drop_last().len() implies is_digit(s.drop_last()[i]) by {
        assert(is_digit(s[i]));
    }
}

proof fn lemma_digits_value_nonneg(s: Seq<u8>)
    requires
        all_digits(s),
    ensures
        digits_value(s) >= 0,
    decreases s.len(),
{
    if s.len() > 0 {
        lemma_drop_last_digits(s);
        lemma_digits_value_nonneg(s.drop_last());
    }
}

/// A longer run of digits never writes a smaller number.
proof fn lemma_digits_prefix_le(s: Seq<u8>, k: int)
    requires
        all_digits(s),
        0 <= k <= s.len(),
    ensures
        digits_value(s.subrange(0, k)) <= digits_value(s),
    decreases s.len(),
{
    if k == s.len() {
        assert(s.subrange(0, k) =~= s);
    } else {
        assert(s.drop_last().subrange(0, k) =~= s.subrange(0, k));
        lemma_drop_last_digits(s);
        lemma_digits_prefix_le(s.drop_last(), k);
        lemma_digits_value_nonneg(s.drop_last());
    }
}

proof fn lemma_next_comma_bounds(s: Seq<u8>, start: int)
    requires
        0 <= start <= s.len(),
    ensures
        start <= next_comma(s, start) <= s.len(),
        next_comma(s, start) < s.len() ==> s[next_comma(s, start)] == COMMA,
    decreases s.len() - start,
{
    if start < s.len() && s[start] != COMMA {
        lemma_next_comma_bounds(s, start + 1);
    }
}

/// The end of the field that starts at `start`: the next comma, or the end.
pub fn field_end(s: &[u8], start: usize) -> (r: usize)
    requires
        start <= s@.len(),
    ensures
        r == next_comma(s@, start as int),
        start <= r <= s@.len(),
        r < s@.len() ==> s@[r as int] == COMMA,
{
    let mut i = start;
    while i < s.len() && s[i] != COMMA
        invariant
            start <= i <= s@.len(),
            next_comma(s@, i as int) == next_comma(s@, start as int),
        decreases s@.len() - i,
    {
        i = i + 1;
    }
    proof {
        lemma_next_comma_bounds(s@, start as int);
    }
    i
}

/// Reads the unsigned number written in `s[start..end]`.
pub fn parse_unsigned(s: &[u8], start: usize, end: usize) -> (r: Option<usize>)
    requires
        start <= end <= s@.len(),
    ensures
        match r {
            Some(v) => unsigned_value(s@.subrange(start as int, end as int), usize::MAX as int)
                == Some(v as int),
            None => unsigned_value(s@.subrange(start as int, end as int), usize::MAX as int) is None,
        },
{
    let ghost field = s@.subrange(start as int, end as int);
    let mut ds = start;
    if start < end && s[start] == PLUS {
        ds = start + 1;
    }
    let ghost d = s@.subrange(ds as int, end as int);
    assert(d =~= if field.len() > 0 && field[0] == PLUS {
        field.drop_first()
    } else {
        field
    });
    if ds == end {
        return None;
    }
    let mut value: usize = 0;
    let mut i = ds;
    assert(s@.subrange(ds as int, ds as int) =~= Seq::<u8>::empty());
    assert(unsigned_value(field, usize::MAX as int) == if all_digits(d) && digits_value(d) <= usize::MAX {
        Some(digits_value(d))
    } else {
        None
    });
    while i < end
        invariant
            ds <= i <= end,
            field == s@.subrange(start as int, end as int),
            unsigned_value(field, usize::MAX as int) == if all_digits(d) && digits_value(d)
                <= usize::MAX {
                Some(digits_value(d))
            } else {
                None
            },
            end <= s@.len(),
            d == s@.subrange(ds as int, end as int),
            all_digits(s@.subrange(ds as int, i as int)),
            value == digits_value(s@.subrange(ds as int, i as int)),
        decreases end - i,
    {
        let b = s[i];
        if b < 48 || b > 57 {
            assert(!is_digit(d[i - ds]));
            return None;
        }
        let ghost next = s@.subrange(ds as int, i + 1);
        assert(next.drop_last() =~= s@.subrange(ds as int, i as int));
        assert(all_digits(next));
        match value.checked_mul(10) {
            Some(tens) => match tens.checked_add((b - 48) as usize) {
                Some(v) => {
                    value = v;
                },
                None => {
                    proof {
                        if all_digits(d) {
                            assert(d.subrange(0, i + 1 - ds) =~= next);
                            lemma_digits_prefix_le(d, i + 1 - ds);
                        }
                    }
                    return None;
                },
            },
            None => {
                proof {
                    if all_digits(d) {
                        assert(d.subrange(0, i + 1 - ds) =~= next);
                        lemma_digits_prefix_le(d, i + 1 - ds);
                    }
                }
                return None;
            },
        }
        i = i + 1;
    }
    assert(d =~= s@.subrange(ds as int, i as int));
    Some(value)
}

} // verus!
