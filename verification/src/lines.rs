//! Line structure of subtitle text: finding bytes, splitting text into lines,
//! grouping lines into blank-line-separated blocks, and joining lines back.

use vstd::prelude::*;

verus! {

/// `l` holds no newline byte.
pub open spec fn no_newline(l: Seq<u8>) -> bool {
    forall|j: int| 0 <= j < l.len() ==> l[j] != 10
}

/// The index of the first occurrence of `c` in `s`, if any.
pub open spec fn find_byte(s: Seq<u8>, c: u8) -> Option<int>
    decreases s.len(),
{
    if s.len() == 0 {
        None
    } else if s[0] == c {
        Some(0)
    } else {
        match find_byte(s.drop_first(), c) {
            Some(i) => Some(i + 1),
            None => None,
        }
    }
}

/// What `find_byte` returns: the first index holding `c`, or `None` when no
/// index does.
pub proof fn lemma_find_byte(s: Seq<u8>, c: u8)
    ensures
        match find_byte(s, c) {
            Some(i) => 0 <= i < s.len() && s[i] == c && (forall|j: int| 0 <= j < i ==> s[j] != c),
            None => forall|j: int| 0 <= j < s.len() ==> s[j] != c,
        },
    decreases s.len(),
{
    if s.len() > 0 && s[0] != c {
        let d = s.drop_first();
        lemma_find_byte(d, c);
        match find_byte(d, c) {
            Some(i) => {
                assert(find_byte(s, c) == Some(i + 1));
                assert(s[i + 1] == d[i]);
                assert forall|j: int| 0 <= j < i + 1 implies s[j] != c by {
                    if j > 0 {
                        assert(s[j] == d[j - 1]);
                    }
                }
            },
            None => {
                assert forall|j: int| 0 <= j < s.len() implies s[j] != c by {
                    if j > 0 {
                        assert(s[j] == d[j - 1]);
                    }
                }
            },
        }
    }
}

/// A witness index that holds `c`, with nothing before it, fixes `find_byte`.
pub proof fn lemma_find_byte_is(s: Seq<u8>, c: u8, i: int)
    requires
        0 <= i < s.len(),
        s[i] == c,
        forall|j: int| 0 <= j < i ==> s[j] != c,
    ensures
        find_byte(s, c) == Some(i),
{
    lemma_find_byte(s, c);
}

/// When no index holds `c`, `find_byte` returns `None`.
pub proof fn lemma_find_byte_none(s: Seq<u8>, c: u8)
    requires
        forall|j: int| 0 <= j < s.len() ==> s[j] != c,
    ensures
        find_byte(s, c) == None::<int>,
{
    lemma_find_byte(s, c);
}

/// The lines of `s`: maximal runs between newline bytes. Always nonempty; a
/// trailing newline yields a final empty line.
pub open spec fn split_lines(s: Seq<u8>) -> Seq<Seq<u8>>
    decreases s.len(),
{
    if s.len() == 0 {
        seq![Seq::<u8>::empty()]
    } else if s[0] == 10 {
        seq![Seq::<u8>::empty()] + split_lines(s.drop_first())
    } else {
        let rest = split_lines(s.drop_first());
        seq![seq![s[0]] + rest[0]] + rest.drop_first()
    }
}

/// The lines joined back with newline bytes between them.
pub open spec fn join_lines(ls: Seq<Seq<u8>>) -> Seq<u8>
    decreases ls.len(),
{
    if ls.len() == 0 {
        Seq::empty()
    } else if ls.len() == 1 {
        ls[0]
    } else {
        ls[0] + seq![10u8] + join_lines(ls.drop_first())
    }
}

/// Splitting yields at least one line, and no line holds a newline.
pub proof fn lemma_split_lines_wf(s: Seq<u8>)
    ensures
        split_lines(s).len() >= 1,
        forall|i: int| 0 <= i < split_lines(s).len() ==> no_newline(#[trigger] split_lines(s)[i]),
    decreases s.len(),
{
    if s.len() == 0 {
    } else if s[0] == 10 {
        lemma_split_lines_wf(s.drop_first());
    } else {
        lemma_split_lines_wf(s.drop_first());
        let rest = split_lines(s.drop_first());
        assert(no_newline(seq![s[0]] + rest[0]));
    }
}

/// Splitting a newline-free string yields that one line.
pub proof fn lemma_split_lines_single(s: Seq<u8>)
    requires
        no_newline(s),
    ensures
        split_lines(s) == seq![s],
    decreases s.len(),
{
    if s.len() > 0 {
        lemma_split_lines_single(s.drop_first());
        let rest = split_lines(s.drop_first());
        assert(seq![s[0]] + rest[0] =~= s);
    }
    assert(split_lines(s) =~~= seq![s]);
}

/// Splitting distributes over a newline: the lines of `a ++ "\n" ++ b` are the
/// lines of `a` followed by the lines of `b`.
pub proof fn lemma_split_lines_app(a: Seq<u8>, b: Seq<u8>)
    ensures
        split_lines(a + seq![10u8] + b) == split_lines(a) + split_lines(b),
    decreases a.len(),
{
    let s = a + seq![10u8] + b;
    if a.len() == 0 {
        assert(s =~= seq![10u8] + b);
        assert(s[0] == 10);
        assert(s.drop_first() =~= b);
        assert(split_lines(s) =~~= split_lines(a) + split_lines(b));
    } else {
        assert(s[0] == a[0]);
        assert(s.drop_first() =~= a.drop_first() + seq![10u8] + b);
        lemma_split_lines_app(a.drop_first(), b);
        lemma_split_lines_wf(a.drop_first());
        if a[0] == 10 {
            assert(split_lines(s) =~~= split_lines(a) + split_lines(b));
        } else {
            let rest = split_lines(s.drop_first());
            let resta = split_lines(a.drop_first());
            assert(rest == resta + split_lines(b));
            assert(rest[0] == resta[0]);
            assert(rest.drop_first() =~= resta.drop_first() + split_lines(b));
            assert(split_lines(s) =~~= split_lines(a) + split_lines(b));
        }
    }
}

/// Joining the lines of `s` gives back `s`.
pub proof fn lemma_join_split_lines(s: Seq<u8>)
    ensures
        join_lines(split_lines(s)) == s,
    decreases s.len(),
{
    if s.len() == 0 {
    } else if s[0] == 10 {
        lemma_join_split_lines(s.drop_first());
        lemma_split_lines_wf(s.drop_first());
        let ls = split_lines(s);
        assert(ls.drop_first() =~= split_lines(s.drop_first()));
        assert(ls[0] =~= Seq::<u8>::empty());
        assert(join_lines(ls) =~= s);
    } else {
        lemma_join_split_lines(s.drop_first());
        lemma_split_lines_wf(s.drop_first());
        let rest = split_lines(s.drop_first());
        let ls = split_lines(s);
        if rest.len() == 1 {
            assert(ls =~~= seq![seq![s[0]] + rest[0]]);
            assert(join_lines(rest) == rest[0]);
            assert(rest[0] == s.drop_first());
            assert(ls.len() == 1);
            assert(join_lines(ls) == ls[0]);
            assert(ls[0] == seq![s[0]] + rest[0]);
            assert((seq![s[0]] + s.drop_first()) =~= s);
            assert(join_lines(ls) =~= s);
        } else {
            assert(ls.len() >= 2);
            assert(ls[0] == seq![s[0]] + rest[0]);
            assert(ls.drop_first() =~= rest.drop_first());
            assert(join_lines(ls) == (seq![s[0]] + rest[0]) + seq![10u8] + join_lines(
                rest.drop_first(),
            ));
            assert(join_lines(rest) == rest[0] + seq![10u8] + join_lines(rest.drop_first()));
            assert(s.drop_first() == rest[0] + seq![10u8] + join_lines(rest.drop_first()));
            assert(join_lines(ls) =~= seq![s[0]] + s.drop_first());
            assert(seq![s[0]] + s.drop_first() =~= s);
        }
    }
}

/// Splitting the joined lines gives back the lines, provided none holds a
/// newline of its own.
pub proof fn lemma_split_join(ls: Seq<Seq<u8>>)
    requires
        ls.len() >= 1,
        forall|i: int| 0 <= i < ls.len() ==> no_newline(#[trigger] ls[i]),
    ensures
        split_lines(join_lines(ls)) == ls,
    decreases ls.len(),
{
    if ls.len() == 1 {
        lemma_split_lines_single(ls[0]);
        assert(split_lines(join_lines(ls)) =~~= ls);
    } else {
        lemma_split_join(ls.drop_first());
        lemma_split_lines_single(ls[0]);
        lemma_split_lines_app(ls[0], join_lines(ls.drop_first()));
        assert(split_lines(join_lines(ls)) =~~= ls);
    }
}

/// A block: one or more lines, none of them blank.
pub open spec fn block_wf(b: Seq<Seq<u8>>) -> bool {
    b.len() >= 1 && forall|j: int| 0 <= j < b.len() ==> #[trigger] b[j].len() != 0
}

/// The maximal runs of non-blank lines, in order; blank lines only separate.
pub open spec fn blocks_of(lines: Seq<Seq<u8>>) -> Seq<Seq<Seq<u8>>>
    decreases lines.len(),
{
    if lines.len() == 0 {
        Seq::empty()
    } else if lines[0].len() == 0 {
        blocks_of(lines.drop_first())
    } else {
        let rest = blocks_of(lines.drop_first());
        if 1 < lines.len() && lines[1].len() != 0 {
            seq![seq![lines[0]] + rest[0]] + rest.drop_first()
        } else {
            seq![seq![lines[0]]] + rest
        }
    }
}

/// Every block that grouping yields is a well-formed block.
pub proof fn lemma_blocks_wf(lines: Seq<Seq<u8>>)
    ensures
        forall|i: int| 0 <= i < blocks_of(lines).len() ==> block_wf(#[trigger] blocks_of(lines)[i]),
    decreases lines.len(),
{
    if lines.len() == 0 {
    } else if lines[0].len() == 0 {
        lemma_blocks_wf(lines.drop_first());
    } else {
        lemma_blocks_wf(lines.drop_first());
        let rest = blocks_of(lines.drop_first());
        let r = blocks_of(lines);
        if 1 < lines.len() && lines[1].len() != 0 {
            assert(lines.drop_first()[0].len() != 0);
            assert(rest.len() >= 1);
            assert(block_wf(seq![lines[0]] + rest[0]));
            assert forall|i: int| 0 <= i < r.len() implies block_wf(r[i]) by {
                if i > 0 {
                    assert(r[i] == rest[i]);
                    assert(block_wf(rest[i]));
                }
            }
        } else {
            assert(block_wf(seq![lines[0]]));
            assert forall|i: int| 0 <= i < r.len() implies block_wf(r[i]) by {
                if i > 0 {
                    assert(r[i] == rest[i - 1]);
                    assert(block_wf(rest[i - 1]));
                }
            }
        }
    }
}

/// No line of any block holds a newline.
pub open spec fn block_no_newline(b: Seq<Seq<u8>>) -> bool {
    forall|j: int| 0 <= j < b.len() ==> no_newline(#[trigger] b[j])
}

/// Grouping newline-free lines yields blocks of newline-free lines.
pub proof fn lemma_blocks_no_newline(lines: Seq<Seq<u8>>)
    requires
        forall|i: int| 0 <= i < lines.len() ==> no_newline(#[trigger] lines[i]),
    ensures
        forall|i: int|
            0 <= i < blocks_of(lines).len() ==> block_no_newline(#[trigger] blocks_of(lines)[i]),
    decreases lines.len(),
{
    if lines.len() == 0 {
    } else if lines[0].len() == 0 {
        lemma_blocks_no_newline(lines.drop_first());
    } else {
        lemma_blocks_no_newline(lines.drop_first());
        let rest = blocks_of(lines.drop_first());
        let r = blocks_of(lines);
        if 1 < lines.len() && lines[1].len() != 0 {
            lemma_blocks_wf(lines.drop_first());
            assert(lines.drop_first()[0].len() != 0);
            assert(rest.len() >= 1);
            assert(block_no_newline(rest[0]));
            assert(block_no_newline(seq![lines[0]] + rest[0]));
            assert forall|i: int| 0 <= i < r.len() implies block_no_newline(r[i]) by {
                if i > 0 {
                    assert(r[i] == rest[i]);
                    assert(block_no_newline(rest[i]));
                }
            }
        } else {
            assert(block_no_newline(seq![lines[0]]));
            assert forall|i: int| 0 <= i < r.len() implies block_no_newline(r[i]) by {
                if i > 0 {
                    assert(r[i] == rest[i - 1]);
                    assert(block_no_newline(rest[i - 1]));
                }
            }
        }
    }
}

/// A leading blank line does not change the blocks.
pub proof fn lemma_blocks_skip_blank(lines: Seq<Seq<u8>>)
    requires
        lines.len() >= 1,
        lines[0].len() == 0,
    ensures
        blocks_of(lines) == blocks_of(lines.drop_first()),
{
}

/// A well-formed block followed by a blank line (or nothing) is the first
/// block of the grouping, and the rest group independently.
pub proof fn lemma_blocks_concat(b: Seq<Seq<u8>>, rest: Seq<Seq<u8>>)
    requires
        block_wf(b),
        rest.len() == 0 || rest[0].len() == 0,
    ensures
        blocks_of(b + rest) == seq![b] + blocks_of(rest),
    decreases b.len(),
{
    let s = b + rest;
    assert(s[0] == b[0]);
    if b.len() == 1 {
        assert(s.drop_first() =~= rest);
        if 1 < s.len() {
            assert(s[1] == rest[0]);
        }
        assert(seq![s[0]] =~= b);
        assert(blocks_of(s) =~~= seq![b] + blocks_of(rest));
    } else {
        assert(s.drop_first() =~= b.drop_first() + rest);
        assert(block_wf(b.drop_first()));
        lemma_blocks_concat(b.drop_first(), rest);
        let r = blocks_of(s.drop_first());
        assert(r == seq![b.drop_first()] + blocks_of(rest));
        assert(s[1] == b[1] && b[1].len() != 0);
        assert(r[0] == b.drop_first());
        assert(seq![s[0]] + r[0] =~= b);
        assert(r.drop_first() =~= blocks_of(rest));
        assert(blocks_of(s) =~~= seq![b] + blocks_of(rest));
    }
}

/// Copies the bytes of `s` in the range `[a, b)`.
pub(crate) fn subvec(s: &Vec<u8>, a: usize, b: usize) -> (r: Vec<u8>)
    requires
        a <= b <= s@.len(),
    ensures
        r@ == s@.subrange(a as int, b as int),
{
    let mut r: Vec<u8> = Vec::new();
    let mut i: usize = a;
    while i < b
        invariant
            a <= i <= b <= s@.len(),
            r@ == s@.subrange(a as int, i as int),
        decreases b - i,
    {
        r.push(s[i]);
        proof {
            assert(r@ =~= s@.subrange(a as int, i + 1));
        }
        i = i + 1;
    }
    r
}

/// The first index at or after `start` holding `c`, as an absolute index.
pub(crate) fn find_byte_from(s: &Vec<u8>, c: u8, start: usize) -> (r: Option<usize>)
    requires
        start <= s@.len(),
    ensures
        match r {
            Some(i) => start <= i < s@.len() && find_byte(s@.skip(start as int), c) == Some(
                i - start,
            ),
            None => find_byte(s@.skip(start as int), c) == None::<int>,
        },
{
    let ghost t = s@.skip(start as int);
    let mut i: usize = start;
    while i < s.len()
        invariant
            start <= i <= s@.len(),
            t == s@.skip(start as int),
            forall|j: int| 0 <= j < i - start ==> t[j] != c,
        decreases s@.len() - i,
    {
        if s[i] == c {
            proof {
                assert(t[i - start] == s@[i as int]);
                lemma_find_byte_is(t, c, i - start);
            }
            return Some(i);
        }
        proof {
            assert(t[i - start] == s@[i as int]);
        }
        i = i + 1;
    }
    proof {
        lemma_find_byte_none(t, c);
    }
    None
}

/// Splits `s` into its lines.
pub(crate) fn split_lines_exec(s: &Vec<u8>) -> (r: Vec<Vec<u8>>)
    ensures
        r.deep_view() == split_lines(s@),
{
    let mut lines: Vec<Vec<u8>> = Vec::new();
    let mut pos: usize = 0;
    let n = s.len();
    proof {
        assert(s@.skip(0) =~= s@);
    }
    loop
        invariant
            n == s@.len(),
            pos <= s@.len(),
            split_lines(s@) == lines.deep_view() + split_lines(s@.skip(pos as int)),
        ensures
            lines.deep_view() == split_lines(s@),
        decreases s@.len() - pos,
    {
        let ghost t = s@.skip(pos as int);
        let ghost prev = lines.deep_view();
        match find_byte_from(s, 10, pos) {
            Some(i) => {
                let line = subvec(s, pos, i);
                proof {
                    lemma_find_byte(t, 10);
                    let k = i - pos;
                    assert(t.take(k) =~= s@.subrange(pos as int, i as int));
                    assert(forall|j: int| 0 <= j < k ==> t.take(k)[j] == t[j]);
                    assert(no_newline(t.take(k)));
                    assert(t =~= t.take(k) + seq![10u8] + t.skip(k + 1));
                    lemma_split_lines_app(t.take(k), t.skip(k + 1));
                    assert(t.skip(k + 1) =~= s@.skip(i + 1));
                    lemma_split_lines_single(t.take(k));
                }
                lines.push(line);
                proof {
                    assert(lines.deep_view() =~~= prev.push(t.take(i - pos)));
                    assert(split_lines(s@) =~~= lines.deep_view() + split_lines(s@.skip(i + 1)));
                }
                pos = i + 1;
            },
            None => {
                let line = subvec(s, pos, s.len());
                proof {
                    lemma_find_byte(t, 10);
                    assert(t =~= s@.subrange(pos as int, s@.len() as int));
                    assert(no_newline(t));
                    lemma_split_lines_single(t);
                }
                lines.push(line);
                proof {
                    assert(lines.deep_view() =~~= prev.push(t));
                    assert(split_lines(s@) =~~= lines.deep_view());
                }
                return lines;
            },
        }
    }
}

/// Groups `lines` into blank-line-separated blocks.
pub(crate) fn group_blocks(lines: Vec<Vec<u8>>) -> (r: Vec<Vec<Vec<u8>>>)
    ensures
        r.deep_view() == blocks_of(lines.deep_view()),
{
    let ghost ldv = lines.deep_view();
    let mut blocks: Vec<Vec<Vec<u8>>> = Vec::new();
    let mut i: usize = 0;
    proof {
        assert(ldv.skip(0) =~= ldv);
        assert forall|k: int| 0 <= k < ldv.len() implies ldv[k] == lines@[k]@ by {
            assert(lines@[k].deep_view() =~= lines@[k]@);
        }
    }
    while i < lines.len()
        invariant
            i <= lines@.len(),
            ldv == lines.deep_view(),
            ldv.len() == lines@.len(),
            forall|k: int| 0 <= k < ldv.len() ==> ldv[k] == lines@[k]@,
            blocks_of(ldv) == blocks.deep_view() + blocks_of(ldv.skip(i as int)),
        decreases lines@.len() - i,
    {
        if lines[i].len() == 0 {
            proof {
                assert(ldv.skip(i as int)[0] == ldv[i as int]);
                assert(ldv.skip(i as int).drop_first() =~= ldv.skip(i + 1));
                lemma_blocks_skip_blank(ldv.skip(i as int));
            }
            i = i + 1;
        } else {
            let start = i;
            let mut cur: Vec<Vec<u8>> = Vec::new();
            while i < lines.len() && lines[i].len() != 0
                invariant
                    start <= i <= lines@.len(),
                    ldv == lines.deep_view(),
                    ldv.len() == lines@.len(),
                    forall|k: int| 0 <= k < ldv.len() ==> ldv[k] == lines@[k]@,
                    cur.deep_view() == ldv.subrange(start as int, i as int),
                    forall|k: int| start <= k < i ==> ldv[k].len() != 0,
                decreases lines@.len() - i,
            {
                let lv = &lines[i];
                let line = subvec(lv, 0, lv.len());
                proof {
                    assert(line@ =~= lines@[i as int]@);
                    assert(line@ == ldv[i as int]);
                }
                let ghost prev_cur = cur.deep_view();
                let ghost line_dv = line.deep_view();
                proof {
                    assert(line_dv =~= line@);
                }
                cur.push(line);
                proof {
                    assert(cur.deep_view() =~= prev_cur.push(line_dv));
                    assert(cur.deep_view() =~= ldv.subrange(start as int, i + 1));
                }
                i = i + 1;
            }
            let ghost prev = blocks.deep_view();
            proof {
                let b = ldv.subrange(start as int, i as int);
                let rest = ldv.skip(i as int);
                assert(ldv[start as int].len() != 0);
                assert(block_wf(b));
                assert(rest.len() == 0 || rest[0].len() == 0) by {
                    if i < ldv.len() {
                        assert(rest[0] == ldv[i as int]);
                    }
                }
                assert(ldv.skip(start as int) =~= b + rest);
                lemma_blocks_concat(b, rest);
            }
            blocks.push(cur);
            proof {
                assert(blocks.deep_view() =~~= prev.push(ldv.subrange(start as int, i as int)));
                assert(blocks_of(ldv) =~~= blocks.deep_view() + blocks_of(ldv.skip(i as int)));
            }
        }
    }
    proof {
        assert(ldv.skip(ldv.len() as int) =~= Seq::<Seq<u8>>::empty());
        assert(blocks_of(ldv) =~~= blocks.deep_view());
    }
    blocks
}

} // verus!
