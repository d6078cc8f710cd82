//! The test selection file: one test per line, `#` starting a comment, blank
//! lines ignored; a line names a test and may add `loops=<count>` tokens.
use vstd::prelude::*;
use crate::catalog::{kind_of, TestConfigEntry, TestKind};
use crate::hardware::{decimal_value, is_digit, lemma_decimal_grows};

verus! {

/// ASCII whitespace: space, tab, line feed, vertical tab, form feed and
/// carriage return.
pub open spec fn is_ws(c: u8) -> bool {
    c == 32 || (9 <= c && c <= 13)
}

/// Where the comment of a line starts, searching from `i`; its length when
/// it has none.
pub open spec fn hash_pos(l: Seq<u8>, i: int) -> int
    decreases l.len() - i,
{
    if i < 0 || i >= l.len() {
        l.len() as int
    } else if l[i] == 35 {
        i
    } else {
        hash_pos(l, i + 1)
    }
}

/// A line without its comment.
pub open spec fn uncommented(l: Seq<u8>) -> Seq<u8> {
    l.subrange(0, hash_pos(l, 0))
}

/// The end of the word that starts at `i`.
pub open spec fn word_end(l: Seq<u8>, i: int) -> int
    decreases l.len() - i,
{
    if i < 0 || i >= l.len() {
        l.len() as int
    } else if is_ws(l[i]) {
        i
    } else {
        word_end(l, i + 1)
    }
}

/// The whitespace-separated words of `l` from `i` on.
pub open spec fn tokens_from(l: Seq<u8>, i: int) -> Seq<Seq<u8>>
    decreases l.len() - i,
{
    if i < 0 || i >= l.len() {
        Seq::empty()
    } else if is_ws(l[i]) {
        tokens_from(l, i + 1)
    } else {
        let e = word_end(l, i);
        if i < e <= l.len() {
            seq![l.subrange(i, e)] + tokens_from(l, e)
        } else {
            Seq::empty()
        }
    }
}

pub open spec fn loops_prefix() -> Seq<u8> {
    seq![108u8, 111, 111, 112, 115, 61]
}

/// The count a `loops=<digits>` token gives, if it is one and fits `usize`.
pub open spec fn loops_value(t: Seq<u8>) -> Option<usize> {
    let d = t.subrange(6, t.len() as int);
    if t.len() > 6 && t.subrange(0, 6) == loops_prefix() && (forall|j: int|
        0 <= j < d.len() ==> is_digit(#[trigger] d[j])) && decimal_value(d) <= usize::MAX {
        Some(decimal_value(d) as usize)
    } else {
        None
    }
}

/// The count the tokens from `i` on leave, the last one winning, starting
/// from `cur`; an error if one of them is not a count.
pub open spec fn loops_of(ts: Seq<Seq<u8>>, i: int, cur: Option<usize>) -> Result<Option<usize>, ()>
    decreases ts.len() - i,
{
    if i < 1 || i >= ts.len() {
        Ok(cur)
    } else {
        match loops_value(ts[i]) {
            Some(v) => loops_of(ts, i + 1, Some(v)),
            None => Err(()),
        }
    }
}

/// What one line selects: nothing for a blank or comment line, else a test
/// and its optional count; an error for an unknown test or token.
pub open spec fn line_entry(l: Seq<u8>) -> Result<Option<TestConfigEntry>, ()> {
    let ts = tokens_from(uncommented(l), 0);
    if ts.len() == 0 {
        Ok(None)
    } else {
        match kind_of(ts[0]) {
            None => Err(()),
            Some(k) => match loops_of(ts, 1, None) {
                Err(_) => Err(()),
                Ok(lo) => Ok(Some(TestConfigEntry { kind: k, loops: lo })),
            },
        }
    }
}

/// The end of the line that starts at `i`.
pub open spec fn line_end(t: Seq<u8>, i: int) -> int
    decreases t.len() - i,
{
    if i < 0 || i >= t.len() {
        t.len() as int
    } else if t[i] == 10 {
        i
    } else {
        line_end(t, i + 1)
    }
}

/// A line whose selection is malformed, numbered from 1.
#[derive(Clone, Copy, Debug, PartialEq, Eq, Structural)]
pub struct BadConfigLine {
    pub line: usize,
}

/// The selection of the lines from `i` on, the first being line `n`, or
/// the number of the first malformed one.
pub open spec fn lines_from(t: Seq<u8>, i: int, n: nat) -> Result<Seq<TestConfigEntry>, nat>
    decreases t.len() + 1 - i,
{
    if i < 0 || i >= t.len() {
        Ok(Seq::empty())
    } else {
        let e = line_end(t, i);
        if i <= e <= t.len() {
            match line_entry(t.subrange(i, e)) {
                Err(_) => Err(n),
                Ok(o) => match lines_from(t, e + 1, n + 1) {
                    Err(m) => Err(m),
                    Ok(rest) => Ok(
                        match o {
                            Some(x) => seq![x],
                            None => Seq::empty(),
                        } + rest,
                    ),
                },
            }
        } else {
            Ok(Seq::empty())
        }
    }
}

/// The selection a file's text makes.
pub open spec fn config_spec(t: Seq<u8>) -> Result<Seq<TestConfigEntry>, nat> {
    lines_from(t, 0, 1)
}


fn copy_bytes(b: &[u8], p: usize, e: usize) -> (r: Vec<u8>)
    requires
        p <= e <= b@.len(),
    ensures
        r@ == b@.subrange(p as int, e as int),
{
    let mut r: Vec<u8> = Vec::new();
    let mut i: usize = p;
    while i < e
        invariant
            p <= i <= e <= b@.len(),
            r@ == b@.subrange(p as int, i as int),
        decreases e - i,
    {
        r.push(b[i]);
        i = i + 1;
        assert(r@ =~= b@.subrange(p as int, i as int));
    }
    r
}

fn ws(c: u8) -> (r: bool)
    ensures
        r == is_ws(c),
{
    c == 32 || (9 <= c && c <= 13)
}

/// The count a `loops=<digits>` token gives, if it is one.
fn loops_token(t: &Vec<u8>) -> (r: Option<usize>)
    ensures
        r == loops_value(t@),
{
    let n = t.len();
    if n <= 6 {
        return None;
    }
    let prefix = vec![108u8, 111, 111, 112, 115, 61];
    assert(prefix@ =~= loops_prefix());
    let mut i: usize = 0;
    while i < 6
        invariant
            n == t@.len(),
            n > 6,
            prefix@ == loops_prefix(),
            i <= 6,
            forall|j: int| 0 <= j < i ==> t@[j] == prefix@[j],
        decreases 6 - i,
    {
        if t[i] != prefix[i] {
            assert(t@.subrange(0, 6)[i as int] != loops_prefix()[i as int]);
            return None;
        }
        i = i + 1;
    }
    assert(t@.subrange(0, 6) =~= loops_prefix());
    let ghost d = t@.subrange(6, n as int);
    let mut v: usize = 0;
    let mut i: usize = 6;
    while i < n
        invariant
            n == t@.len(),
            6 <= i <= n,
            d == t@.subrange(6, n as int),
            t@.subrange(0, 6) == loops_prefix(),
            forall|j: int| 0 <= j < i - 6 ==> is_digit(#[trigger] d[j]),
            v == decimal_value(d.subrange(0, i - 6)),
        decreases n - i,
    {
        let c = t[i];
        if c < 48 || c > 57 {
            assert(d[i - 6] == c);
            assert(!is_digit(d[i - 6]));
            return None;
        }
        proof {
            let pre = d.subrange(0, i - 6 + 1);
            assert(pre.drop_last() =~= d.subrange(0, i - 6));
            assert(pre.last() == c);
        }
        let ghost before = v;
        match v.checked_mul(10) {
            Some(m) => match m.checked_add((c - 48) as usize) {
                Some(w) => {
                    v = w;
                },
                None => {
                    proof {
                        if forall|j: int| 0 <= j < d.len() ==> is_digit(#[trigger] d[j]) {
                            lemma_decimal_grows(d, i - 6 + 1);
                        }
                    }
                    return None;
                },
            },
            None => {
                proof {
                    if forall|j: int| 0 <= j < d.len() ==> is_digit(#[trigger] d[j]) {
                        lemma_decimal_grows(d, i - 6 + 1);
                    }
                }
                return None;
            },
        }
        i = i + 1;
    }
    assert(d.subrange(0, n - 6) =~= d);
    Some(v)
}

/// What one line selects.
fn parse_line(l: &Vec<u8>) -> (r: Result<Option<TestConfigEntry>, ()>)
    ensures
        r == line_entry(l@),
{
    let n = l.len();
    let mut c: usize = 0;
    while c < n && l[c] != 35
        invariant
            n == l@.len(),
            c <= n,
            hash_pos(l@, 0) == hash_pos(l@, c as int),
        decreases n - c,
    {
        c = c + 1;
    }
    let body = copy_bytes(l.as_slice(), 0, c);
    assert(body@ == uncommented(l@));
    let ghost bv = body@;
    let m = body.len();
    let mut toks: Vec<Vec<u8>> = Vec::new();
    let mut i: usize = 0;
    while i < m
        invariant
            bv == body@,
            m == bv.len(),
            i <= m,
            toks@.map_values(|v: Vec<u8>| v@) + tokens_from(bv, i as int) == tokens_from(bv, 0),
        decreases m - i,
    {
        if ws(body[i]) {
            i = i + 1;
        } else {
            let mut e: usize = i;
            while e < m && !ws(body[e])
                invariant
                    bv == body@,
                    m == bv.len(),
                    i <= e <= m,
                    word_end(bv, i as int) == word_end(bv, e as int),
                    !is_ws(bv[i as int]),
                decreases m - e,
            {
                e = e + 1;
            }
            let w = copy_bytes(body.as_slice(), i, e);
            let ghost old_toks = toks@.map_values(|v: Vec<u8>| v@);
            toks.push(w);
            assert(toks@.map_values(|v: Vec<u8>| v@) =~= old_toks.push(bv.subrange(i as int, e as int)));
            assert(old_toks.push(bv.subrange(i as int, e as int)) + tokens_from(bv, e as int) =~= old_toks
                + tokens_from(bv, i as int));
            i = e;
        }
    }
    let ghost ts = toks@.map_values(|v: Vec<u8>| v@);
    assert(ts =~= tokens_from(bv, 0));
    if toks.len() == 0 {
        return Ok(None);
    }
    let kind = match TestKind::parse_bytes(toks[0].as_slice()) {
        Some(k) => k,
        None => {
            return Err(());
        },
    };
    let mut loops: Option<usize> = None;
    let mut t: usize = 1;
    while t < toks.len()
        invariant
            ts == toks@.map_values(|v: Vec<u8>| v@),
            ts == tokens_from(bv, 0),
            bv == uncommented(l@),
            1 <= t <= toks@.len(),
            loops_of(ts, 1, None) == loops_of(ts, t as int, loops),
        decreases toks@.len() - t,
    {
        assert(ts[t as int] == toks@[t as int]@);
        match loops_token(&toks[t]) {
            Some(v) => {
                loops = Some(v);
            },
            None => {
                return Err(());
            },
        }
        t = t + 1;
    }
    Ok(Some(TestConfigEntry { kind, loops }))
}

/// Reads a test selection from a file's text. A malformed line rejects the
/// whole selection, naming the first such line.
pub fn parse_config(text: &[u8]) -> (r: Result<Vec<TestConfigEntry>, BadConfigLine>)
    requires
        text@.len() < usize::MAX,
    ensures
        config_spec(text@) matches Ok(s) ==> r matches Ok(v) && v@ == s,
        config_spec(text@) matches Err(n) ==> r == Err::<Vec<TestConfigEntry>, BadConfigLine>(
            BadConfigLine { line: n as usize },
        ),
{
    let len = text.len();
    let mut acc: Vec<TestConfigEntry> = Vec::new();
    let mut i: usize = 0;
    let mut n: usize = 1;
    while i < len
        invariant
            len == text@.len(),
            len < usize::MAX,
            i <= len + 1,
            1 <= n <= i + 1,
            config_spec(text@) == match lines_from(text@, i as int, n as nat) {
                Ok(rest) => Ok(acc@ + rest),
                Err(m) => Err(m),
            },
        decreases len + 1 - i,
    {
        let mut e: usize = i;
        while e < len && text[e] != 10
            invariant
                len == text@.len(),
                i <= e <= len,
                line_end(text@, i as int) == line_end(text@, e as int),
            decreases len - e,
        {
            e = e + 1;
        }
        let line = copy_bytes(text, i, e);
        match parse_line(&line) {
            Err(_) => {
                return Err(BadConfigLine { line: n });
            },
            Ok(o) => {
                let ghost before = acc@;
                match o {
                    Some(x) => {
                        acc.push(x);
                    },
                    None => {},
                }
                proof {
                    match lines_from(text@, e as int + 1, (n + 1) as nat) {
                        Ok(rest) => {
                            assert(acc@ + rest =~= before + (match o {
                                Some(x) => seq![x],
                                None => Seq::empty(),
                            } + rest));
                        },
                        Err(_) => {},
                    }
                }
            },
        }
        i = e + 1;
        n = n + 1;
    }
    assert(acc@ + Seq::<TestConfigEntry>::empty() =~= acc@);
    Ok(acc)
}


/// Byte `j` lies in a comment: a `#` comes at or before it on its line.
pub open spec fn in_comment(t: Seq<u8>, j: int) -> bool {
    exists|k: int|
        0 <= k <= j && #[trigger] t[k] == 35 && forall|m: int| k <= m <= j ==> #[trigger] t[m] != 10
}

/// Every byte of the text is whitespace or part of a comment.
pub open spec fn blank_or_comment(t: Seq<u8>) -> bool {
    forall|j: int| 0 <= j < t.len() ==> is_ws(#[trigger] t[j]) || in_comment(t, j)
}

proof fn lemma_hash_pos(l: Seq<u8>, i: int)
    requires
        0 <= i <= l.len(),
    ensures
        i <= hash_pos(l, i) <= l.len(),
        forall|m: int| i <= m < hash_pos(l, i) ==> l[m] != 35,
    decreases l.len() - i,
{
    if i < l.len() && l[i] != 35 {
        lemma_hash_pos(l, i + 1);
    }
}

proof fn lemma_line_end(t: Seq<u8>, i: int)
    requires
        0 <= i <= t.len(),
    ensures
        i <= line_end(t, i) <= t.len(),
        line_end(t, i) < t.len() ==> t[line_end(t, i)] == 10,
    decreases t.len() - i,
{
    if i < t.len() && t[i] != 10 {
        lemma_line_end(t, i + 1);
    }
}

proof fn lemma_blank_no_tokens(l: Seq<u8>, i: int)
    requires
        0 <= i,
        forall|m: int| i <= m < l.len() ==> is_ws(#[trigger] l[m]),
    ensures
        tokens_from(l, i) == Seq::<Seq<u8>>::empty(),
    decreases l.len() - i,
{
    if i < l.len() {
        lemma_blank_no_tokens(l, i + 1);
    }
}

proof fn lemma_blank_lines(t: Seq<u8>, i: int, n: nat)
    requires
        blank_or_comment(t),
        0 <= i,
        i == 0 || (i <= t.len() && t[i - 1] == 10),
    ensures
        lines_from(t, i, n) == Ok::<Seq<TestConfigEntry>, nat>(Seq::empty()),
    decreases t.len() + 1 - i,
{
    if i < t.len() {
        lemma_line_end(t, i);
        let e = line_end(t, i);
        let line = t.subrange(i, e);
        lemma_hash_pos(line, 0);
        let body = uncommented(line);
        assert forall|j: int| 0 <= j < body.len() implies is_ws(#[trigger] body[j]) by {
            assert(body[j] == t[i + j]);
            if !is_ws(t[i + j]) {
                assert(in_comment(t, i + j));
                let k = choose|k: int|
                    0 <= k <= i + j && #[trigger] t[k] == 35 && forall|m: int|
                        k <= m <= i + j ==> #[trigger] t[m] != 10;
                if k < i {
                    assert(t[i - 1] != 10);
                }
                assert(line[k - i] == 35);
            }
        }
        lemma_blank_no_tokens(body, 0);
        assert(line_entry(line) == Ok::<Option<TestConfigEntry>, ()>(None));
        if e < t.len() {
            lemma_blank_lines(t, e + 1, n + 1);
        }
        assert(Seq::<TestConfigEntry>::empty() + Seq::<TestConfigEntry>::empty() =~= Seq::<
            TestConfigEntry,
        >::empty());
    }
}

/// A selection file of nothing but blank lines and comments selects no
/// test, which leaves the whole catalog to run.
pub proof fn lemma_comment_only_selects_nothing(t: Seq<u8>)
    requires
        blank_or_comment(t),
    ensures
        config_spec(t) == Ok::<Seq<TestConfigEntry>, nat>(Seq::empty()),
{
    lemma_blank_lines(t, 0, 1);
}

} // verus!
