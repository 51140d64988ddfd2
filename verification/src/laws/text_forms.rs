//! How version texts, refs and tags are taken apart.

use crate::text;
use crate::util;
use vstd::prelude::*;

verus! {

/// An ASCII digit.
pub open spec fn is_number(c: char) -> bool {
    '0' <= c && c <= '9'
}

/// One or more ASCII digits.
pub open spec fn number(s: Seq<char>) -> bool {
    s.len() > 0 && forall|i: int| 0 <= i < s.len() ==> is_number(#[trigger] s[i])
}

/// Nothing, or something that begins with neither a digit nor a dot.
pub open spec fn tail(s: Seq<char>) -> bool {
    s.len() > 0 ==> !is_number(s[0]) && s[0] != '.'
}

/// A range operator has no digit, and the bare version is what follows it.
pub proof fn law_bare(operator: Seq<char>, rest: Seq<char>)
    requires
        forall|i: int| 0 <= i < operator.len() ==> !is_number(#[trigger] operator[i]),
        rest.len() > 0 ==> is_number(rest[0]),
    ensures
        util::bare(operator + rest) == rest,
{
    let s = operator + rest;
    assert forall|j: int| 0 <= j < operator.len() implies !text::a_digit()(s[j]) by {
        assert(s[j] == operator[j]);
    }
    if rest.len() > 0 {
        assert(s[operator.len() as int] == rest[0]);
    }
    text::lemma_first_index(s, text::a_digit(), operator.len() as int);
    assert(util::bare(s) =~= rest);
}

/// The numeric head is the longest run of digits and dots at the start.
pub proof fn law_head(head: Seq<char>, rest: Seq<char>)
    requires
        forall|i: int| 0 <= i < head.len() ==> is_number(#[trigger] head[i]) || head[i] == '.',
        tail(rest),
    ensures
        util::numeric_head(head + rest) == head,
        util::after_head(head + rest) == rest,
{
    let s = head + rest;
    assert forall|j: int| 0 <= j < head.len() implies !util::ends_head()(s[j]) by {
        assert(s[j] == head[j]);
    }
    if rest.len() > 0 {
        assert(s[head.len() as int] == rest[0]);
    }
    text::lemma_first_index(s, util::ends_head(), head.len() as int);
    assert(util::numeric_head(s) =~= head);
    assert(util::after_head(s) =~= rest);
}

proof fn lemma_whole(a: Seq<char>)
    requires
        number(a),
    ensures
        text::split_on(a, '.') == seq![a],
        text::all_digits(a),
{
    assert forall|j: int| 0 <= j < a.len() implies !text::the_char('.')(a[j]) by {
        assert(is_number(a[j]));
    }
    text::lemma_first_index(a, text::the_char('.'), a.len() as int);
}

/// The numbers of a version are its segments, and one or two of them are padded
/// to three in front of whatever follows.
pub proof fn law_segments_and_padding(
    a: Seq<char>,
    b: Seq<char>,
    c: Seq<char>,
    rest: Seq<char>,
)
    requires
        number(a) && number(b) && number(c),
        tail(rest),
    ensures
        util::numeric_segments(a + rest) == seq![a],
        util::numeric_segments(a + seq!['.'] + b + rest) == seq![a, b],
        util::numeric_segments(a + seq!['.'] + b + seq!['.'] + c + rest) == seq![a, b, c],
        util::padded(a + rest) == a + seq!['.', '0', '.', '0'] + rest,
        util::padded(a + seq!['.'] + b + rest) == a + seq!['.'] + b + seq!['.', '0'] + rest,
        util::padded(a + seq!['.'] + b + seq!['.'] + c + rest) == a + seq!['.'] + b + seq!['.'] + c
            + rest,
{
    reveal_strlit(".");
    reveal_strlit(".0");
    reveal_strlit(".0.0");
    let two = a.push('.') + b;
    let three = two.push('.') + c;
    lemma_whole(a);
    lemma_whole(b);
    lemma_whole(c);
    text::lemma_split_concat(a, b);
    text::lemma_split_concat(two, c);
    assert(a + seq!['.'] + b + rest =~= two + rest);
    assert(a + seq!['.'] + b + seq!['.'] + c + rest =~= three + rest);
    assert forall|i: int| 0 <= i < two.len() implies is_number(#[trigger] two[i]) || two[i] == '.'
        by {
        if i < a.len() {
            assert(two[i] == a[i]);
        } else if i > a.len() {
            assert(two[i] == b[i - a.len() - 1]);
        }
    }
    assert forall|i: int| 0 <= i < three.len() implies is_number(#[trigger] three[i]) || three[i]
        == '.' by {
        if i < two.len() {
            assert(three[i] == two[i]);
        } else if i > two.len() {
            assert(three[i] == c[i - two.len() - 1]);
        }
    }
    law_head(a, rest);
    law_head(two, rest);
    law_head(three, rest);
    assert(text::split_on(two, '.') =~= seq![a, b]);
    assert(text::split_on(three, '.') =~= seq![a, b, c]);
    util::lemma_all_non_empty(seq![a]);
    util::lemma_all_non_empty(seq![a, b]);
    util::lemma_all_non_empty(seq![a, b, c]);
    assert(util::padded(a + rest) =~= a + seq!['.', '0', '.', '0'] + rest);
    assert(util::padded(two + rest) =~= a + seq!['.'] + b + seq!['.', '0'] + rest);
}

/// Digits and dots only.
pub open spec fn head_text(s: Seq<char>) -> bool {
    forall|i: int| 0 <= i < s.len() ==> is_number(#[trigger] s[i]) || s[i] == '.'
}

proof fn lemma_non_empty_sum(x: Seq<Seq<char>>, y: Seq<Seq<char>>)
    ensures
        util::non_empty(x + y) == util::non_empty(x) + util::non_empty(y),
    decreases y.len(),
{
    if y.len() == 0 {
        assert(x + y =~= x);
        assert(util::non_empty(x) + util::non_empty(y) =~= util::non_empty(x));
    } else {
        let z = x + y;
        assert(z.drop_last() =~= x + y.drop_last());
        assert(z.last() == y.last());
        lemma_non_empty_sum(x, y.drop_last());
        assert(util::non_empty(z) =~= util::non_empty(x) + util::non_empty(y));
    }
}

/// A dot separates segments, however many there are: those before it come first,
/// those behind it follow, and an empty piece is none; what follows the digits and
/// dots never counts.
pub proof fn law_segments(a: Seq<char>, b: Seq<char>, rest: Seq<char>)
    requires
        head_text(a),
        head_text(b),
        tail(rest),
    ensures
        util::numeric_segments(a + seq!['.'] + b + rest) == util::numeric_segments(a)
            + util::numeric_segments(b),
        util::numeric_segments(a + rest) == util::numeric_segments(a),
        util::numeric_segments(rest).len() == 0,
        number(a) ==> util::numeric_segments(a) == seq![a],
{
    let none = Seq::<char>::empty();
    let both = a.push('.') + b;
    assert(a + seq!['.'] + b + rest =~= both + rest);
    assert(head_text(both)) by {
        assert forall|i: int| 0 <= i < both.len() implies is_number(#[trigger] both[i]) || both[i]
            == '.' by {
            if i < a.len() {
                assert(both[i] == a[i]);
            } else if i > a.len() {
                assert(both[i] == b[i - a.len() - 1]);
            }
        }
    }
    law_head(both, rest);
    law_head(a, rest);
    law_head(a, none);
    law_head(b, none);
    law_head(none, rest);
    assert(a + none =~= a);
    assert(b + none =~= b);
    assert(none + rest =~= rest);
    text::lemma_split_concat(a, b);
    lemma_non_empty_sum(text::split_on(a, '.'), text::split_on(b, '.'));
    assert(text::split_on(none, '.') =~= seq![none]);
    assert(seq![none].drop_last() =~= seq![]);
    assert(util::non_empty(seq![]) =~= Seq::<Seq<char>>::empty());
    assert(util::non_empty(seq![none]).len() == 0);
    if number(a) {
        lemma_whole(a);
        util::lemma_all_non_empty(seq![a]);
    }
}

/// A version of one or two segments is padded to three in front of its tail, and
/// every other one is left alone.
pub proof fn law_padding(head: Seq<char>, rest: Seq<char>)
    requires
        head_text(head),
        tail(rest),
    ensures
        ({
            let segments = util::numeric_segments(head);
            let r = util::padded(head + rest);
            &&& segments.len() == 1 ==> r == segments[0] + seq!['.', '0', '.', '0'] + rest
            &&& segments.len() == 2 ==> r == segments[0] + seq!['.'] + segments[1] + seq!['.', '0']
                + rest
            &&& segments.len() != 1 && segments.len() != 2 ==> r == head + rest
        }),
{
    reveal_strlit(".");
    reveal_strlit(".0");
    reveal_strlit(".0.0");
    law_segments(head, seq![], rest);
    law_head(head, rest);
    let segments = util::numeric_segments(head);
    if segments.len() == 1 {
        assert(util::padded(head + rest) =~= segments[0] + seq!['.', '0', '.', '0'] + rest);
    } else if segments.len() == 2 {
        assert(util::padded(head + rest) =~= segments[0] + seq!['.'] + segments[1] + seq!['.', '0']
            + rest);
    }
}

/// A ref names a version if it is a digit and what follows it, with or without a
/// `v` in front, and is no commit hash: seven hexadecimal digits or more.
pub proof fn law_version_ref(s: Seq<char>)
    ensures
        s.len() > 0 && s[0] != 'v' ==> util::version_ref(s) == (is_number(s[0]) && !(s.len() >= 7
            && forall|i: int| 0 <= i < s.len() ==> is_hex(#[trigger] s[i]))),
        util::version_ref(seq!['v'] + s) == (s.len() > 0 && is_number(s[0]) && !(s.len() >= 7
            && forall|i: int| 0 <= i < s.len() ==> is_hex(#[trigger] s[i]))),
        !util::version_ref(seq![]),
        util::without_v(seq!['v'] + s) == s,
        s.len() > 0 && s[0] != 'v' ==> util::without_v(s) == s,
{
    let t = seq!['v'] + s;
    assert(t.skip(1) =~= s);
    assert((forall|i: int| 0 <= i < s.len() ==> is_hex(#[trigger] s[i])) == util::all_hex(s)) by {
        if util::all_hex(s) {
            assert forall|i: int| 0 <= i < s.len() implies is_hex(#[trigger] s[i]) by {
                assert(text::hex_digit(s[i]));
            }
        }
        if forall|i: int| 0 <= i < s.len() ==> is_hex(#[trigger] s[i]) {
            assert forall|i: int| 0 <= i < s.len() implies text::hex_digit(#[trigger] s[i]) by {
                assert(is_hex(s[i]));
            }
        }
    }
}

/// A hexadecimal digit.
pub open spec fn is_hex(c: char) -> bool {
    is_number(c) || ('a' <= c && c <= 'f') || ('A' <= c && c <= 'F')
}

} // verus!
