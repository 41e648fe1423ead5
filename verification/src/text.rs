//! Character-level text handling: whitespace, tokens and prefixes.

use vstd::prelude::*;

verus! {

/// The characters that carry the Unicode `White_Space` property, which is
/// what `char::is_whitespace` tests.
pub open spec fn spec_is_whitespace(c: char) -> bool {
    let u = c as u32;
    (0x09 <= u && u <= 0x0d) || u == 0x20 || u == 0x85 || u == 0xa0 || u == 0x1680
        || (0x2000 <= u && u <= 0x200a) || u == 0x2028 || u == 0x2029 || u == 0x202f
        || u == 0x205f || u == 0x3000
}

/// Whether `c` is Unicode whitespace.
pub fn is_whitespace(c: char) -> (r: bool)
    ensures
        r == spec_is_whitespace(c),
{
    let u = c as u32;
    (0x09 <= u && u <= 0x0d) || u == 0x20 || u == 0x85 || u == 0xa0 || u == 0x1680
        || (0x2000 <= u && u <= 0x200a) || u == 0x2028 || u == 0x2029 || u == 0x202f
        || u == 0x205f || u == 0x3000
}

/// The characters of `s`, one by one.
pub fn chars_of(s: &str) -> (r: Vec<char>)
    ensures
        r@ == s@,
{
    let mut r: Vec<char> = Vec::new();
    for c in it: s.chars()
        invariant
            r@ == it.seq().take(it.index() as int),
            it.seq() == s@,
    {
        r.push(c);
    }
    r
}


/// Appends `c` to `s` (`String::push`).
#[verifier::external_body]
fn push_char(s: &mut String, c: char)
    ensures
        final(s)@ == old(s)@.push(c),
{
    s.push(c);
}

/// The string made of the characters `cs`.
pub fn string_of(cs: &Vec<char>) -> (r: String)
    ensures
        r@ == cs@,
{
    let mut r = String::new();
    let n = cs.len();
    for i in 0..n
        invariant
            n == cs@.len(),
            r@ == cs@.take(i as int),
    {
        push_char(&mut r, cs[i]);
        assert(cs@.take(i + 1) == cs@.take(i as int).push(cs@[i as int]));
    }
    assert(cs@.take(n as int) == cs@);
    r
}

/// Length of the run of non-whitespace characters that starts `s`.
pub open spec fn run_len(s: Seq<char>) -> nat
    decreases s.len(),
{
    if s.len() == 0 || spec_is_whitespace(s[0]) {
        0
    } else {
        1 + run_len(s.drop_first())
    }
}

/// Every character of `s` is a non-whitespace character.
pub open spec fn no_whitespace(s: Seq<char>) -> bool {
    forall|i: int| 0 <= i < s.len() ==> !spec_is_whitespace(#[trigger] s[i])
}

/// A leading run fits in the text, and is nonempty where the text starts
/// with a non-whitespace character.
pub proof fn lemma_run_len_bound(s: Seq<char>)
    ensures
        run_len(s) <= s.len(),
        s.len() > 0 && !spec_is_whitespace(s[0]) ==> run_len(s) >= 1,
    decreases s.len(),
{
    if s.len() > 0 && !spec_is_whitespace(s[0]) {
        lemma_run_len_bound(s.drop_first());
    }
}

/// The whitespace-separated tokens of `s`, as `str::split_whitespace`
/// yields them: the maximal runs of non-whitespace characters, in order.
pub open spec fn tokens(s: Seq<char>) -> Seq<Seq<char>>
    decreases s.len(),
{
    if s.len() == 0 {
        seq![]
    } else if spec_is_whitespace(s[0]) {
        tokens(s.drop_first())
    } else {
        proof {
            lemma_run_len_bound(s);
        }
        seq![s.take(run_len(s) as int)] + tokens(s.skip(run_len(s) as int))
    }
}

proof fn lemma_run_len_append(t: Seq<char>, r: Seq<char>)
    requires
        no_whitespace(t),
    ensures
        run_len(t + r) == t.len() + run_len(r),
    decreases t.len(),
{
    if t.len() > 0 {
        assert((t + r).drop_first() == t.drop_first() + r);
        lemma_run_len_append(t.drop_first(), r);
    } else {
        assert(t + r == r);
    }
}

/// Tokens of a run of non-whitespace characters followed by a whitespace
/// character and the rest.
proof fn lemma_tokens_after_run(cur: Seq<char>, c: char, rest: Seq<char>)
    requires
        no_whitespace(cur),
        spec_is_whitespace(c),
    ensures
        tokens(cur + seq![c] + rest) == (if cur.len() > 0 { seq![cur] } else { seq![] })
            + tokens(rest),
{
    let tail = seq![c] + rest;
    assert(tail[0] == c);
    assert(tail.drop_first() == rest);
    assert(tokens(tail) == tokens(rest));
    let s = cur + seq![c] + rest;
    assert(s == cur + tail);
    if cur.len() > 0 {
        lemma_run_len_append(cur, tail);
        assert(run_len(tail) == 0);
        assert(s[0] == cur[0]);
        assert(s.take(cur.len() as int) == cur);
        assert(s.skip(cur.len() as int) == tail);
    } else {
        assert(s == tail);
        assert(seq![] + tokens(rest) == tokens(rest));
    }
}

/// A text without whitespace is one token, or none where it is empty.
pub proof fn lemma_tokens_of_run(cur: Seq<char>)
    requires
        no_whitespace(cur),
    ensures
        tokens(cur) == (if cur.len() > 0 { seq![cur] } else { Seq::<Seq<char>>::empty() }),
{
    if cur.len() > 0 {
        lemma_run_len_append(cur, Seq::<char>::empty());
        assert(cur + Seq::<char>::empty() == cur);
        assert(run_len(Seq::<char>::empty()) == 0);
        assert(cur.take(cur.len() as int) == cur);
        assert(cur.skip(cur.len() as int) == Seq::<char>::empty());
        assert(tokens(Seq::<char>::empty()) == Seq::<Seq<char>>::empty());
        assert(seq![cur] + Seq::<Seq<char>>::empty() == seq![cur]);
    }
}

/// The views of a list of character vectors.
pub open spec fn views(v: Seq<Vec<char>>) -> Seq<Seq<char>> {
    v.map_values(|t: Vec<char>| t@)
}

/// The whitespace-separated tokens of `s` (`str::split_whitespace`).
pub fn split_whitespace(s: &str) -> (r: Vec<Vec<char>>)
    ensures
        views(r@) == tokens(s@),
{
    let cs = chars_of(s);
    let n = cs.len();
    let mut done: Vec<Vec<char>> = Vec::new();
    let mut cur: Vec<char> = Vec::new();
    assert(cs@.skip(0) == cs@);
    assert(cur@ + cs@.skip(0) == cs@);
    assert(views(done@) == Seq::<Seq<char>>::empty());
    for i in 0..n
        invariant
            n == cs@.len(),
            cs@ == s@,
            no_whitespace(cur@),
            tokens(cs@) == views(done@) + tokens(cur@ + cs@.skip(i as int)),
    {
        let c = cs[i];
        let ghost rest = cs@.skip(i + 1);
        assert(cs@.skip(i as int) == seq![c] + rest);
        assert(cur@ + cs@.skip(i as int) == cur@ + seq![c] + rest);
        if is_whitespace(c) {
            proof {
                lemma_tokens_after_run(cur@, c, rest);
            }
            if cur.len() > 0 {
                let ghost old_done = done@;
                let ghost old_cur = cur@;
                done.push(cur);
                cur = Vec::new();
                assert(views(done@) == views(old_done) + seq![old_cur]);
                assert(cur@ + rest == rest);
            } else {
                assert(cur@ + rest == rest);
                assert(seq![] + tokens(rest) == tokens(rest));
            }
        } else {
            let ghost old_cur = cur@;
            cur.push(c);
            assert(old_cur + seq![c] + rest == cur@ + rest);
        }
    }
    assert(cs@.skip(n as int) == Seq::<char>::empty());
    assert(cur@ + cs@.skip(n as int) == cur@);
    proof {
        lemma_tokens_of_run(cur@);
    }
    if cur.len() > 0 {
        let ghost old_done = done@;
        let ghost old_cur = cur@;
        done.push(cur);
        assert(views(done@) == views(old_done) + seq![old_cur]);
    } else {
        assert(views(done@) + Seq::<Seq<char>>::empty() == views(done@));
    }
    done
}


/// Whether two character vectors hold the same characters.
pub fn chars_eq(a: &Vec<char>, b: &Vec<char>) -> (r: bool)
    ensures
        r == (a@ == b@),
{
    if a.len() != b.len() {
        return false;
    }
    let n = a.len();
    for i in 0..n
        invariant
            n == a@.len(),
            n == b@.len(),
            forall|j: int| 0 <= j < i ==> a@[j] == b@[j],
    {
        if a[i] != b[i] {
            return false;
        }
    }
    assert(a@ == b@);
    true
}

/// The item that follows the first occurrence of `target` in `items`, if
/// that occurrence is not the last item; `None` where `target` does not occur
/// or occurs first at the end.
pub open spec fn next_after_first(items: Seq<Seq<char>>, target: Seq<char>) -> Option<Seq<char>>
    decreases items.len(),
{
    if items.len() == 0 {
        None
    } else if items[0] == target {
        if items.len() > 1 {
            Some(items[1])
        } else {
            None
        }
    } else {
        next_after_first(items.drop_first(), target)
    }
}

/// Position of the item that follows the first occurrence of `target`.
pub fn position_after_first(items: &Vec<Vec<char>>, target: &Vec<char>) -> (r: Option<usize>)
    ensures
        match r {
            Some(j) => j < items@.len() && next_after_first(views(items@), target@) == Some(
                items@[j as int]@,
            ),
            None => next_after_first(views(items@), target@) is None,
        },
{
    let n = items.len();
    let ghost all = views(items@);
    assert(all.skip(0) == all);
    for i in 0..n
        invariant
            n == items@.len(),
            all == views(items@),
            next_after_first(all, target@) == next_after_first(all.skip(i as int), target@),
    {
        let ghost rest = all.skip(i as int);
        assert(rest[0] == items@[i as int]@);
        if chars_eq(&items[i], target) {
            if i + 1 < n {
                assert(rest[1] == items@[i + 1]@);
                return Some(i + 1);
            } else {
                return None;
            }
        }
        assert(rest.drop_first() == all.skip(i + 1));
    }
    None
}

/// `s` without the copies of `c` that start it (`str::trim_start_matches`
/// with a character pattern).
pub open spec fn trim_start_char(s: Seq<char>, c: char) -> Seq<char>
    decreases s.len(),
{
    if s.len() > 0 && s[0] == c {
        trim_start_char(s.drop_first(), c)
    } else {
        s
    }
}

/// Removes every leading copy of `c` from `s`.
pub fn trim_start_matches(s: &Vec<char>, c: char) -> (r: Vec<char>)
    ensures
        r@ == trim_start_char(s@, c),
{
    let n = s.len();
    let mut k: usize = 0;
    assert(s@.skip(0) == s@);
    while k < n && s[k] == c
        invariant
            n == s@.len(),
            k <= n,
            trim_start_char(s@, c) == trim_start_char(s@.skip(k as int), c),
        decreases n - k,
    {
        assert(s@.skip(k as int).drop_first() == s@.skip(k + 1));
        k = k + 1;
    }
    let mut r: Vec<char> = Vec::new();
    let mut i: usize = k;
    while i < n
        invariant
            n == s@.len(),
            k <= i <= n,
            r@ == s@.subrange(k as int, i as int),
        decreases n - i,
    {
        r.push(s[i]);
        assert(s@.subrange(k as int, i + 1) == s@.subrange(k as int, i as int).push(s@[i as int]));
        i = i + 1;
    }
    assert(s@.subrange(k as int, n as int) == s@.skip(k as int));
    r
}

/// `s` without leading whitespace.
pub open spec fn trim_start_whitespace(s: Seq<char>) -> Seq<char>
    decreases s.len(),
{
    if s.len() > 0 && spec_is_whitespace(s[0]) {
        trim_start_whitespace(s.drop_first())
    } else {
        s
    }
}

/// `s` without trailing whitespace.
pub open spec fn trim_end_whitespace(s: Seq<char>) -> Seq<char>
    decreases s.len(),
{
    if s.len() > 0 && spec_is_whitespace(s.last()) {
        trim_end_whitespace(s.drop_last())
    } else {
        s
    }
}

/// `s` without leading and trailing whitespace (`str::trim`).
pub open spec fn trim_whitespace(s: Seq<char>) -> Seq<char> {
    trim_end_whitespace(trim_start_whitespace(s))
}

/// Removes leading and trailing whitespace.
pub fn trim(s: &Vec<char>) -> (r: Vec<char>)
    ensures
        r@ == trim_whitespace(s@),
{
    let n = s.len();
    let mut lo: usize = 0;
    assert(s@.skip(0) == s@);
    while lo < n && is_whitespace(s[lo])
        invariant
            n == s@.len(),
            lo <= n,
            trim_start_whitespace(s@) == trim_start_whitespace(s@.skip(lo as int)),
        decreases n - lo,
    {
        assert(s@.skip(lo as int).drop_first() == s@.skip(lo + 1));
        lo = lo + 1;
    }
    let ghost front = s@.skip(lo as int);
    assert(trim_start_whitespace(s@) == front);
    let mut hi: usize = n;
    assert(front.take(n - lo) == front);
    while hi > lo && is_whitespace(s[hi - 1])
        invariant
            n == s@.len(),
            lo <= hi <= n,
            front == s@.skip(lo as int),
            trim_end_whitespace(front) == trim_end_whitespace(front.take(hi - lo)),
        decreases hi,
    {
        assert(front.take(hi - lo).drop_last() == front.take(hi - 1 - lo));
        hi = hi - 1;
    }
    let mut r: Vec<char> = Vec::new();
    let mut i: usize = lo;
    while i < hi
        invariant
            n == s@.len(),
            lo <= i <= hi <= n,
            r@ == s@.subrange(lo as int, i as int),
        decreases hi - i,
    {
        r.push(s[i]);
        assert(s@.subrange(lo as int, i + 1) == s@.subrange(lo as int, i as int).push(s@[i as int]));
        i = i + 1;
    }
    assert(s@.subrange(lo as int, hi as int) == front.take(hi - lo));
    r
}


/// Every token is a nonempty run of non-whitespace characters.
pub proof fn lemma_tokens_clean(s: Seq<char>)
    ensures
        forall|i: int|
            0 <= i < tokens(s).len() ==> #[trigger] tokens(s)[i].len() > 0 && no_whitespace(
                tokens(s)[i],
            ),
    decreases s.len(),
{
    if s.len() > 0 {
        if spec_is_whitespace(s[0]) {
            lemma_tokens_clean(s.drop_first());
            assert(tokens(s) == tokens(s.drop_first()));
        } else {
            lemma_run_len_bound(s);
            let k = run_len(s) as int;
            lemma_tokens_clean(s.skip(k));
            lemma_run_prefix(s);
            let ts = tokens(s);
            assert(ts == seq![s.take(k)] + tokens(s.skip(k)));
            assert forall|i: int| 0 <= i < ts.len() implies #[trigger] ts[i].len() > 0 && no_whitespace(ts[i]) by {
                if i > 0 {
                    assert(ts[i] == tokens(s.skip(k))[i - 1]);
                }
            }
        }
    }
}

/// The leading run of non-whitespace characters holds no whitespace.
proof fn lemma_run_prefix(s: Seq<char>)
    ensures
        run_len(s) <= s.len(),
        no_whitespace(s.take(run_len(s) as int)),
    decreases s.len(),
{
    lemma_run_len_bound(s);
    if s.len() > 0 && !spec_is_whitespace(s[0]) {
        lemma_run_prefix(s.drop_first());
        let k = run_len(s) as int;
        assert forall|i: int| 0 <= i < k implies !spec_is_whitespace(#[trigger] s.take(k)[i]) by {
            if i > 0 {
                assert(s.take(k)[i] == s.drop_first().take(k - 1)[i - 1]);
            }
        }
    }
}

/// Trimming a character removes exactly the copies of it that start the
/// text: the result is what follows a prefix made only of that character,
/// it does not start with that character, and trimming again changes
/// nothing.
pub proof fn lemma_trim_start_char(s: Seq<char>, c: char)
    ensures
        exists|k: int|
            0 <= k <= s.len() && #[trigger] s.skip(k) == trim_start_char(s, c) && (forall|i: int|
                0 <= i < k ==> s[i] == c),
        trim_start_char(s, c).len() == 0 || trim_start_char(s, c)[0] != c,
        trim_start_char(trim_start_char(s, c), c) == trim_start_char(s, c),
    decreases s.len(),
{
    if s.len() > 0 && s[0] == c {
        let t = s.drop_first();
        lemma_trim_start_char(t, c);
        let k = choose|k: int|
            0 <= k <= t.len() && #[trigger] t.skip(k) == trim_start_char(t, c) && (forall|i: int|
                0 <= i < k ==> t[i] == c);
        assert(s.skip(k + 1) == t.skip(k));
        assert forall|i: int| 0 <= i < k + 1 implies s[i] == c by {
            if i > 0 {
                assert(s[i] == t[i - 1]);
            }
        }
    } else {
        assert(s.skip(0) == s);
    }
}

/// The item after the first occurrence of `target`, where that occurrence
/// is at `i` and is not the last item.
pub proof fn lemma_next_after_first_at(items: Seq<Seq<char>>, target: Seq<char>, i: int)
    requires
        0 <= i,
        i + 1 < items.len(),
        items[i] == target,
        forall|m: int| 0 <= m < i ==> items[m] != target,
    ensures
        next_after_first(items, target) == Some(items[i + 1]),
    decreases i,
{
    if i > 0 {
        let t = items.drop_first();
        assert forall|m: int| 0 <= m < i - 1 implies t[m] != target by {
            assert(t[m] == items[m + 1]);
        }
        assert(items[0] != target);
        lemma_next_after_first_at(t, target, i - 1);
        assert(t[i] == items[i + 1]);
    }
}

/// Where `target` occurs in no item but possibly the last, nothing follows
/// its first occurrence.
pub proof fn lemma_next_after_first_none(items: Seq<Seq<char>>, target: Seq<char>)
    requires
        forall|m: int| 0 <= m < items.len() - 1 ==> items[m] != target,
    ensures
        next_after_first(items, target) is None,
    decreases items.len(),
{
    if items.len() > 1 {
        let t = items.drop_first();
        assert forall|m: int| 0 <= m < t.len() - 1 implies t[m] != target by {
            assert(t[m] == items[m + 1]);
        }
        assert(items[0] != target);
        lemma_next_after_first_none(t, target);
    } else if items.len() == 1 {
        assert(items.drop_first().len() == 0);
        assert(next_after_first(items.drop_first(), target) is None);
    }
}


/// A leading run that stops inside `a` is not lengthened by what follows.
proof fn lemma_run_len_stops(a: Seq<char>, x: Seq<char>)
    requires
        run_len(a) < a.len(),
    ensures
        run_len(a + x) == run_len(a),
    decreases a.len(),
{
    if !spec_is_whitespace(a[0]) {
        assert((a + x).drop_first() == a.drop_first() + x);
        lemma_run_len_stops(a.drop_first(), x);
    }
}

/// Splitting a text at a whitespace character splits its tokens: the
/// tokens of `a`, a whitespace character and `b` are the tokens of `a`
/// followed by those of `b`.
pub proof fn lemma_tokens_split(a: Seq<char>, c: char, b: Seq<char>)
    requires
        spec_is_whitespace(c),
    ensures
        tokens(a + seq![c] + b) == tokens(a) + tokens(b),
    decreases a.len(),
{
    let s = a + seq![c] + b;
    let tail = seq![c] + b;
    assert(s == a + tail);
    if a.len() == 0 {
        assert(s == tail);
        assert(tail.drop_first() == b);
        assert(tokens(a) == Seq::<Seq<char>>::empty());
        assert(tokens(a) + tokens(b) == tokens(b));
    } else if spec_is_whitespace(a[0]) {
        assert(s.drop_first() == a.drop_first() + seq![c] + b);
        lemma_tokens_split(a.drop_first(), c, b);
        assert(tokens(s) == tokens(s.drop_first()));
        assert(tokens(a) == tokens(a.drop_first()));
    } else {
        lemma_run_len_bound(a);
        let r = run_len(a) as int;
        if r < a.len() {
            lemma_run_len_stops(a, tail);
            assert(s.take(r) == a.take(r));
            assert(s.skip(r) == a.skip(r) + seq![c] + b);
            lemma_tokens_split(a.skip(r), c, b);
            assert(tokens(s) == seq![a.take(r)] + tokens(s.skip(r)));
            assert(tokens(a) == seq![a.take(r)] + tokens(a.skip(r)));
            assert(tokens(s) == tokens(a) + tokens(b));
        } else {
            lemma_run_prefix(a);
            assert(a.take(r) == a);
            lemma_tokens_after_run(a, c, b);
            lemma_tokens_of_run(a);
        }
    }
}

/// Trimming keeps the part of `s` between a whitespace prefix and a
/// whitespace suffix, and that part neither starts nor ends with whitespace.
pub proof fn lemma_trim_whitespace_exact(s: Seq<char>)
    ensures
        exists|lo: int, hi: int|
            0 <= lo <= hi <= s.len() && #[trigger] s.subrange(lo, hi) == trim_whitespace(s) && (forall|
                i: int,
            | 0 <= i < lo ==> spec_is_whitespace(s[i])) && (forall|i: int|
                hi <= i < s.len() ==> spec_is_whitespace(s[i])),
        trim_whitespace(s).len() > 0 ==> !spec_is_whitespace(trim_whitespace(s)[0])
            && !spec_is_whitespace(trim_whitespace(s).last()),
{
    lemma_trim_start_ws(s);
    let lo = choose|lo: int|
        0 <= lo <= s.len() && #[trigger] s.skip(lo) == trim_start_whitespace(s) && (forall|i: int|
            0 <= i < lo ==> spec_is_whitespace(s[i]));
    let f = trim_start_whitespace(s);
    lemma_trim_end_ws(f);
    let m = choose|m: int|
        0 <= m <= f.len() && #[trigger] f.take(m) == trim_end_whitespace(f) && (forall|i: int|
            m <= i < f.len() ==> spec_is_whitespace(f[i]));
    assert(s.subrange(lo, lo + m) == f.take(m));
    assert forall|i: int| lo + m <= i < s.len() implies spec_is_whitespace(s[i]) by {
        assert(s[i] == f[i - lo]);
    }
    if trim_whitespace(s).len() > 0 {
        assert(trim_whitespace(s)[0] == f[0]);
    }
}

proof fn lemma_trim_start_ws(s: Seq<char>)
    ensures
        exists|k: int|
            0 <= k <= s.len() && #[trigger] s.skip(k) == trim_start_whitespace(s) && (forall|i: int|
                0 <= i < k ==> spec_is_whitespace(s[i])),
        trim_start_whitespace(s).len() > 0 ==> !spec_is_whitespace(trim_start_whitespace(s)[0]),
    decreases s.len(),
{
    if s.len() > 0 && spec_is_whitespace(s[0]) {
        let t = s.drop_first();
        lemma_trim_start_ws(t);
        let k = choose|k: int|
            0 <= k <= t.len() && #[trigger] t.skip(k) == trim_start_whitespace(t) && (forall|i: int|
                0 <= i < k ==> spec_is_whitespace(t[i]));
        assert(s.skip(k + 1) == t.skip(k));
        assert forall|i: int| 0 <= i < k + 1 implies spec_is_whitespace(s[i]) by {
            if i > 0 {
                assert(s[i] == t[i - 1]);
            }
        }
    } else {
        assert(s.skip(0) == s);
    }
}

proof fn lemma_trim_end_ws(s: Seq<char>)
    ensures
        exists|m: int|
            0 <= m <= s.len() && #[trigger] s.take(m) == trim_end_whitespace(s) && (forall|i: int|
                m <= i < s.len() ==> spec_is_whitespace(s[i])),
        trim_end_whitespace(s).len() > 0 ==> !spec_is_whitespace(trim_end_whitespace(s).last()),
    decreases s.len(),
{
    if s.len() > 0 && spec_is_whitespace(s.last()) {
        let t = s.drop_last();
        lemma_trim_end_ws(t);
        let m = choose|m: int|
            0 <= m <= t.len() && #[trigger] t.take(m) == trim_end_whitespace(t) && (forall|i: int|
                m <= i < t.len() ==> spec_is_whitespace(t[i]));
        assert(s.take(m) == t.take(m));
        assert forall|i: int| m <= i < s.len() implies spec_is_whitespace(s[i]) by {
            if i < s.len() - 1 {
                assert(s[i] == t[i]);
            }
        }
    } else {
        assert(s.take(s.len() as int) == s);
    }
}

} // verus!
