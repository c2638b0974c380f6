use vstd::prelude::*;
use vstd::string::{StrSliceExecFns, StringExecFns};

verus! {

/// Lexicographic order on character sequences, comparing characters by
/// code point, looking from position `i` on. A proper prefix comes first.
pub open spec fn text_lt_from(a: Seq<char>, b: Seq<char>, i: int) -> bool
    decreases a.len() - i,
{
    if i < 0 || i >= a.len() {
        0 <= i < b.len()
    } else if i >= b.len() {
        false
    } else if a[i] != b[i] {
        (a[i] as int) < (b[i] as int)
    } else {
        text_lt_from(a, b, i + 1)
    }
}

/// Lexicographic order on character sequences by code point; this is the
/// order of Rust strings.
pub open spec fn text_lt(a: Seq<char>, b: Seq<char>) -> bool {
    text_lt_from(a, b, 0)
}

/// Every element precedes every later one: strictly ascending, hence
/// without repetition.
pub open spec fn strictly_sorted(s: Seq<Seq<char>>) -> bool {
    forall|i: int, j: int| 0 <= i < j < s.len() ==> text_lt(#[trigger] s[i], #[trigger] s[j])
}

/// The views of a sequence of strings.
pub open spec fn views(v: Seq<String>) -> Seq<Seq<char>> {
    v.map_values(|s: String| s@)
}

proof fn lemma_lt_from_irreflexive(a: Seq<char>, i: int)
    requires
        0 <= i <= a.len(),
    ensures
        !text_lt_from(a, a, i),
    decreases a.len() - i,
{
    if i < a.len() {
        lemma_lt_from_irreflexive(a, i + 1);
    }
}

proof fn lemma_lt_from_transitive(a: Seq<char>, b: Seq<char>, c: Seq<char>, i: int)
    requires
        0 <= i,
        text_lt_from(a, b, i),
        text_lt_from(b, c, i),
    ensures
        text_lt_from(a, c, i),
    decreases a.len() - i,
{
    if i < a.len() && i < b.len() && i < c.len() && a[i] == b[i] && b[i] == c[i] {
        lemma_lt_from_transitive(a, b, c, i + 1);
    }
}

proof fn lemma_lt_from_total(a: Seq<char>, b: Seq<char>, i: int)
    requires
        0 <= i <= a.len(),
        0 <= i <= b.len(),
    ensures
        text_lt_from(a, b, i) || text_lt_from(b, a, i) || (a.len() == b.len() && forall|j: int|
            i <= j < a.len() ==> a[j] == b[j]),
    decreases a.len() - i,
{
    if i < a.len() && i < b.len() {
        if a[i] == b[i] {
            lemma_lt_from_total(a, b, i + 1);
        } else {
            assert((a[i] as int) != (b[i] as int));
        }
    }
}

/// `text_lt` is a strict total order.
pub proof fn lemma_text_order(a: Seq<char>, b: Seq<char>, c: Seq<char>)
    ensures
        !text_lt(a, a),
        text_lt(a, b) && text_lt(b, c) ==> text_lt(a, c),
        text_lt(a, b) || text_lt(b, a) || a == b,
        text_lt(a, b) ==> !text_lt(b, a),
{
    lemma_lt_from_irreflexive(a, 0);
    if text_lt(a, b) && text_lt(b, c) {
        lemma_lt_from_transitive(a, b, c, 0);
    }
    if text_lt(a, b) && text_lt(b, a) {
        lemma_lt_from_transitive(a, b, a, 0);
    }
    lemma_lt_from_total(a, b, 0);
    if !text_lt(a, b) && !text_lt(b, a) {
        assert(a =~= b);
    }
}

proof fn lemma_lt_from_first_difference(a: Seq<char>, b: Seq<char>, i: int)
    requires
        0 <= i <= a.len(),
    ensures
        text_lt_from(a, b, i) <==> ((i <= a.len() < b.len() && forall|j: int|
            i <= j < a.len() ==> a[j] == b[j]) || exists|k: int|
            i <= k < a.len() && k < b.len() && (#[trigger] a[k] as int) < (b[k] as int) && forall|
                j: int,
            |
                i <= j < k ==> a[j] == b[j]),
    decreases a.len() - i,
{
    if i < a.len() && i < b.len() {
        lemma_lt_from_first_difference(a, b, i + 1);
        if a[i] == b[i] {
            if exists|k: int|
                i <= k < a.len() && k < b.len() && (#[trigger] a[k] as int) < (b[k] as int)
                    && forall|j: int| i <= j < k ==> a[j] == b[j] {
                let k = choose|k: int|
                    i <= k < a.len() && k < b.len() && (#[trigger] a[k] as int) < (b[k] as int)
                        && forall|j: int| i <= j < k ==> a[j] == b[j];
                assert(k != i);
                assert(forall|j: int| i + 1 <= j < k ==> a[j] == b[j]);
            }
            if exists|k: int|
                i + 1 <= k < a.len() && k < b.len() && (#[trigger] a[k] as int) < (b[k] as int)
                    && forall|j: int| i + 1 <= j < k ==> a[j] == b[j] {
                let k = choose|k: int|
                    i + 1 <= k < a.len() && k < b.len() && (#[trigger] a[k] as int) < (b[k] as int)
                        && forall|j: int| i + 1 <= j < k ==> a[j] == b[j];
                assert forall|j: int| i <= j < k implies a[j] == b[j] by {
                    if j == i {
                    }
                }
            }
        } else {
            if exists|k: int|
                i <= k < a.len() && k < b.len() && (#[trigger] a[k] as int) < (b[k] as int)
                    && forall|j: int| i <= j < k ==> a[j] == b[j] {
                let k = choose|k: int|
                    i <= k < a.len() && k < b.len() && (#[trigger] a[k] as int) < (b[k] as int)
                        && forall|j: int| i <= j < k ==> a[j] == b[j];
                if k > i {
                    assert(a[i] == b[i]);
                }
            }
            if (a[i] as int) < (b[i] as int) {
                assert(forall|j: int| i <= j < i ==> a[j] == b[j]);
                assert(a[i] as int == a[i] as int);
            }
        }
    }
}

/// The order of strings: `a` comes before `b` exactly when `a` is a proper
/// prefix of `b`, or at the first position where they differ the character
/// of `a` has the lower code point.
pub proof fn lemma_text_order_is_lexicographic(a: Seq<char>, b: Seq<char>)
    ensures
        text_lt(a, b) <==> ((a.len() < b.len() && forall|j: int| 0 <= j < a.len() ==> a[j] == b[j])
            || exists|k: int|
            0 <= k < a.len() && k < b.len() && (#[trigger] a[k] as int) < (b[k] as int) && forall|
                j: int,
            |
                0 <= j < k ==> a[j] == b[j]),
{
    lemma_lt_from_first_difference(a, b, 0);
}

/// Whether two texts are equal, character by character.
pub fn same_text(a: &str, b: &str) -> (r: bool)
    ensures
        r == (a@ == b@),
{
    let la = a.unicode_len();
    let lb = b.unicode_len();
    if la != lb {
        return false;
    }
    let mut i: usize = 0;
    while i < la
        invariant
            la == a@.len(),
            lb == b@.len(),
            la == lb,
            i <= la,
            forall|j: int| 0 <= j < i ==> a@[j] == b@[j],
        decreases la - i,
    {
        if a.get_char(i) != b.get_char(i) {
            return false;
        }
        i = i + 1;
    }
    assert(a@ =~= b@);
    true
}

/// Whether `a` comes strictly before `b` in the order of strings.
pub fn text_precedes(a: &str, b: &str) -> (r: bool)
    ensures
        r == text_lt(a@, b@),
{
    let la = a.unicode_len();
    let lb = b.unicode_len();
    let mut i: usize = 0;
    while i < la && i < lb
        invariant
            la == a@.len(),
            lb == b@.len(),
            i <= la,
            i <= lb,
            text_lt(a@, b@) == text_lt_from(a@, b@, i as int),
        decreases la - i,
    {
        let ca = a.get_char(i);
        let cb = b.get_char(i);
        if ca != cb {
            return (ca as u32) < (cb as u32);
        }
        i = i + 1;
    }
    i < lb
}

/// Adds `name` to a strictly sorted list of names unless it is there
/// already, keeping the list strictly sorted.
pub fn insert_sorted(names: &mut Vec<String>, name: &String)
    requires
        strictly_sorted(views(old(names)@)),
    ensures
        strictly_sorted(views(final(names)@)),
        views(final(names)@).to_set() == views(old(names)@).to_set().insert(name@),
{
    let ghost old_views = views(names@);
    let mut i: usize = 0;
    while i < names.len()
        invariant
            names@ == old(names)@,
            old_views == views(names@),
            strictly_sorted(old_views),
            i <= names.len(),
            forall|j: int| 0 <= j < i ==> text_lt(#[trigger] old_views[j], name@),
        ensures
            i <= names.len(),
            names@ == old(names)@,
            i < names.len() ==> !text_lt(old_views[i as int], name@),
            forall|j: int| 0 <= j < i ==> text_lt(#[trigger] old_views[j], name@),
        decreases names.len() - i,
    {
        if !text_precedes(names[i].as_str(), name.as_str()) {
            break;
        }
        i = i + 1;
    }
    // Here every name before position i precedes `name`, and if i is in
    // range, names[i] does not precede it.
    if i < names.len() && same_text(names[i].as_str(), name.as_str()) {
        assert(old_views[i as int] == name@);
        assert(views(names@).to_set() =~= old_views.to_set().insert(name@)) by {
            assert(old_views.to_set().contains(name@));
        }
        return ;
    }
    let ghost k = i as int;
    proof {
        if k < old_views.len() {
            lemma_text_order(old_views[k], name@, name@);
            lemma_text_order(name@, old_views[k], name@);
            assert(text_lt(name@, old_views[k]));
        }
    }
    names.insert(i, name.clone());
    let ghost new_views = views(names@);
    assert(new_views =~= old_views.insert(k, name@));
    assert forall|a: int, b: int| 0 <= a < b < new_views.len() implies text_lt(
        #[trigger] new_views[a],
        #[trigger] new_views[b],
    ) by {
        if b < k {
        } else if a < k && b == k {
        } else if a < k {
            lemma_text_order(old_views[a], name@, old_views[k]);
            lemma_text_order(old_views[a], old_views[k], old_views[b - 1]);
            assert(text_lt(old_views[a], old_views[b - 1]));
        } else if a == k {
            lemma_text_order(name@, old_views[k], old_views[b - 1]);
            if b - 1 > k {
                assert(text_lt(old_views[k], old_views[b - 1]));
            }
        } else {
        }
    }
    assert(new_views.to_set() =~= old_views.to_set().insert(name@)) by {
        assert forall|x: Seq<char>| new_views.to_set().contains(x) implies old_views.to_set().insert(
            name@,
        ).contains(x) by {
            let j = choose|j: int| 0 <= j < new_views.len() && new_views[j] == x;
            if j < k {
                assert(old_views[j] == x);
            } else if j > k {
                assert(old_views[j - 1] == x);
            }
        }
        assert forall|x: Seq<char>| old_views.to_set().insert(name@).contains(x) implies new_views.to_set().contains(x) by {
            if x == name@ {
                assert(new_views[k] == x);
            } else {
                let j = choose|j: int| 0 <= j < old_views.len() && old_views[j] == x;
                if j < k {
                    assert(new_views[j] == x);
                } else {
                    assert(new_views[j + 1] == x);
                }
            }
        }
    }
}

/// The decimal digit for `d`, which is below ten.
pub open spec fn digit_char(d: nat) -> char {
    if d == 0 {
        '0'
    } else if d == 1 {
        '1'
    } else if d == 2 {
        '2'
    } else if d == 3 {
        '3'
    } else if d == 4 {
        '4'
    } else if d == 5 {
        '5'
    } else if d == 6 {
        '6'
    } else if d == 7 {
        '7'
    } else if d == 8 {
        '8'
    } else {
        '9'
    }
}

/// The decimal notation of `n`, without leading zeros.
pub open spec fn decimal(n: nat) -> Seq<char>
    decreases n,
{
    if n < 10 {
        seq![digit_char(n)]
    } else {
        decimal(n / 10).push(digit_char(n % 10))
    }
}

/// The number that a string of decimal digits denotes.
pub open spec fn numeral_value(s: Seq<char>) -> int
    decreases s.len(),
{
    if s.len() == 0 {
        0
    } else {
        numeral_value(s.drop_last()) * 10 + (s.last() as int - '0' as int)
    }
}

/// The decimal notation of `n` is a string of decimal digits that denotes
/// `n`, and it starts with a zero only where it is "0".
pub proof fn lemma_decimal_denotes(n: nat)
    ensures
        decimal(n).len() > 0,
        forall|k: int| 0 <= k < decimal(n).len() ==> '0' <= #[trigger] decimal(n)[k] <= '9',
        numeral_value(decimal(n)) == n,
        decimal(n)[0] == '0' ==> n == 0,
    decreases n,
{
    if n < 10 {
        assert(decimal(n).drop_last() =~= Seq::<char>::empty());
        assert(digit_char(n) as int - '0' as int == n);
        assert(numeral_value(decimal(n)) == numeral_value(decimal(n).drop_last()) * 10 + (
        decimal(n).last() as int - '0' as int));
    } else {
        let m = n / 10;
        let d = (n % 10) as nat;
        lemma_decimal_denotes(m);
        let s = decimal(n);
        assert(s.drop_last() =~= decimal(m));
        assert(s.last() == digit_char(d));
        assert(s[0] == decimal(m)[0]);
        assert forall|k: int| 0 <= k < s.len() implies '0' <= #[trigger] s[k] <= '9' by {
            if k < s.len() - 1 {
                assert(s[k] == decimal(m)[k]);
            }
        }
        assert(digit_char(d) as int - '0' as int == d);
        assert(m * 10 + d == n);
        assert(numeral_value(s) == numeral_value(s.drop_last()) * 10 + (s.last() as int
            - '0' as int));
    }
}

fn digit_text(d: u128) -> (r: &'static str)
    requires
        d < 10,
    ensures
        r@ == seq![digit_char(d as nat)],
{
    match d {
        0 => {
            proof {
                reveal_strlit("0");
            }
            "0"
        },
        1 => {
            proof {
                reveal_strlit("1");
            }
            "1"
        },
        2 => {
            proof {
                reveal_strlit("2");
            }
            "2"
        },
        3 => {
            proof {
                reveal_strlit("3");
            }
            "3"
        },
        4 => {
            proof {
                reveal_strlit("4");
            }
            "4"
        },
        5 => {
            proof {
                reveal_strlit("5");
            }
            "5"
        },
        6 => {
            proof {
                reveal_strlit("6");
            }
            "6"
        },
        7 => {
            proof {
                reveal_strlit("7");
            }
            "7"
        },
        8 => {
            proof {
                reveal_strlit("8");
            }
            "8"
        },
        _ => {
            proof {
                reveal_strlit("9");
            }
            "9"
        },
    }
}

/// The decimal notation of `n`, without leading zeros.
pub fn decimal_text(n: u128) -> (r: String)
    ensures
        r@ == decimal(n as nat),
    decreases n,
{
    if n < 10 {
        String::from_str(digit_text(n))
    } else {
        let mut s = decimal_text(n / 10);
        s.append(digit_text(n % 10));
        s
    }
}

/// Unicode white space (the characters with the White_Space property),
/// which `str::trim` removes.
pub open spec fn is_white_space(c: char) -> bool {
    let v = c as int;
    ||| 0x9 <= v <= 0xd
    ||| v == 0x20
    ||| v == 0x85
    ||| v == 0xa0
    ||| v == 0x1680
    ||| 0x2000 <= v <= 0x200a
    ||| v == 0x2028
    ||| v == 0x2029
    ||| v == 0x202f
    ||| v == 0x205f
    ||| v == 0x3000
}

/// The text without its leading white space.
pub open spec fn trim_start(s: Seq<char>) -> Seq<char>
    decreases s.len(),
{
    if s.len() > 0 && is_white_space(s[0]) {
        trim_start(s.drop_first())
    } else {
        s
    }
}

/// The text without its trailing white space.
pub open spec fn trim_end(s: Seq<char>) -> Seq<char>
    decreases s.len(),
{
    if s.len() > 0 && is_white_space(s.last()) {
        trim_end(s.drop_last())
    } else {
        s
    }
}

/// The text without its leading and trailing white space.
pub open spec fn trimmed(s: Seq<char>) -> Seq<char> {
    trim_end(trim_start(s))
}

/// Whether `c` is Unicode white space.
pub fn white_space(c: char) -> (r: bool)
    ensures
        r == is_white_space(c),
{
    let v = c as u32;
    (0x9 <= v && v <= 0xd) || v == 0x20 || v == 0x85 || v == 0xa0 || v == 0x1680 || (0x2000
        <= v && v <= 0x200a) || v == 0x2028 || v == 0x2029 || v == 0x202f || v == 0x205f || v
        == 0x3000
}

proof fn lemma_trim_start_at(s: Seq<char>, i: int)
    requires
        0 <= i <= s.len(),
        forall|k: int| 0 <= k < i ==> is_white_space(#[trigger] s[k]),
        i == s.len() || !is_white_space(s[i]),
    ensures
        trim_start(s) == s.subrange(i, s.len() as int),
    decreases i,
{
    if i == 0 {
        assert(s.subrange(0, s.len() as int) =~= s);
    } else {
        let d = s.drop_first();
        assert forall|k: int| 0 <= k < i - 1 implies is_white_space(#[trigger] d[k]) by {
            assert(d[k] == s[k + 1]);
        }
        if i < s.len() {
            assert(d[i - 1] == s[i]);
        }
        lemma_trim_start_at(d, i - 1);
        assert(d.subrange(i - 1, d.len() as int) =~= s.subrange(i, s.len() as int));
    }
}

proof fn lemma_trim_end_at(s: Seq<char>, j: int)
    requires
        0 <= j <= s.len(),
        forall|k: int| j <= k < s.len() ==> is_white_space(#[trigger] s[k]),
        j == 0 || !is_white_space(s[j - 1]),
    ensures
        trim_end(s) == s.subrange(0, j),
    decreases s.len() - j,
{
    if j == s.len() {
        assert(s.subrange(0, j) =~= s);
    } else {
        let d = s.drop_last();
        assert(is_white_space(s[s.len() - 1]));
        assert forall|k: int| j <= k < d.len() implies is_white_space(#[trigger] d[k]) by {
            assert(d[k] == s[k]);
        }
        if j > 0 {
            assert(d[j - 1] == s[j - 1]);
        }
        lemma_trim_end_at(d, j);
        assert(d.subrange(0, j) =~= s.subrange(0, j));
    }
}

proof fn lemma_trim_start_index(s: Seq<char>) -> (i: int)
    ensures
        0 <= i <= s.len(),
        forall|k: int| 0 <= k < i ==> is_white_space(#[trigger] s[k]),
        i == s.len() || !is_white_space(s[i]),
        trim_start(s) == s.subrange(i, s.len() as int),
    decreases s.len(),
{
    if s.len() > 0 && is_white_space(s[0]) {
        let d = s.drop_first();
        let i = lemma_trim_start_index(d) + 1;
        assert forall|k: int| 0 <= k < i implies is_white_space(#[trigger] s[k]) by {
            if k > 0 {
                assert(s[k] == d[k - 1]);
            }
        }
        if i < s.len() {
            assert(s[i] == d[i - 1]);
        }
        assert(d.subrange(i - 1, d.len() as int) =~= s.subrange(i, s.len() as int));
        i
    } else {
        assert(s.subrange(0, s.len() as int) =~= s);
        0
    }
}

proof fn lemma_trim_end_index(s: Seq<char>) -> (j: int)
    ensures
        0 <= j <= s.len(),
        forall|k: int| j <= k < s.len() ==> is_white_space(#[trigger] s[k]),
        j == 0 || !is_white_space(s[j - 1]),
        trim_end(s) == s.subrange(0, j),
    decreases s.len(),
{
    if s.len() > 0 && is_white_space(s.last()) {
        let d = s.drop_last();
        let j = lemma_trim_end_index(d);
        assert forall|k: int| j <= k < s.len() implies is_white_space(#[trigger] s[k]) by {
            if k < d.len() {
                assert(s[k] == d[k]);
            }
        }
        if j > 0 {
            assert(s[j - 1] == d[j - 1]);
        }
        assert(d.subrange(0, j) =~= s.subrange(0, j));
        j
    } else {
        assert(s.subrange(0, s.len() as int) =~= s);
        s.len() as int
    }
}

/// Trimming removes exactly the white space at both ends: what is left is
/// a stretch `s[i..j]` of the text such that everything before and after
/// it is white space, and, unless it is empty, it starts and ends with a
/// character that is not.
pub proof fn lemma_trimmed_strips_white_space(s: Seq<char>)
    ensures
        exists|i: int, j: int|
            0 <= i <= j <= s.len() && trimmed(s) == #[trigger] s.subrange(i, j) && (forall|k: int|
                0 <= k < i ==> is_white_space(#[trigger] s[k])) && (forall|k: int|
                j <= k < s.len() ==> is_white_space(#[trigger] s[k])) && (i < j ==> !is_white_space(
                s[i],
            ) && !is_white_space(s[j - 1])),
{
    let i = lemma_trim_start_index(s);
    let t = s.subrange(i, s.len() as int);
    let jj = lemma_trim_end_index(t);
    let j = i + jj;
    assert(t.subrange(0, jj) =~= s.subrange(i, j));
    assert forall|k: int| j <= k < s.len() implies is_white_space(#[trigger] s[k]) by {
        assert(s[k] == t[k - i]);
    }
    if i < j {
        assert(s[i] == t[0]);
        assert(s[j - 1] == t[jj - 1]);
    }
    assert(trimmed(s) == s.subrange(i, j));
}

/// The text without its leading and trailing white space, as `str::trim`
/// gives it.
pub fn trim_text(s: &str) -> (r: &str)
    ensures
        r@ == trimmed(s@),
{
    let n = s.unicode_len();
    let mut i: usize = 0;
    while i < n && white_space(s.get_char(i))
        invariant
            n == s@.len(),
            i <= n,
            forall|k: int| 0 <= k < i ==> is_white_space(#[trigger] s@[k]),
        decreases n - i,
    {
        i = i + 1;
    }
    let mut j: usize = n;
    while j > i && white_space(s.get_char(j - 1))
        invariant
            n == s@.len(),
            i <= j <= n,
            forall|k: int| j <= k < n ==> is_white_space(#[trigger] s@[k]),
        decreases j - i,
    {
        j = j - 1;
    }
    proof {
        lemma_trim_start_at(s@, i as int);
        let t = s@.subrange(i as int, n as int);
        assert forall|k: int| j - i <= k < t.len() implies is_white_space(#[trigger] t[k]) by {
            assert(t[k] == s@[k + i]);
        }
        if j > i {
            assert(t[j - i - 1] == s@[j - 1]);
        }
        lemma_trim_end_at(t, j - i);
        assert(t.subrange(0, j - i) =~= s@.subrange(i as int, j as int));
    }
    s.substring_char(i, j)
}

} // verus!
