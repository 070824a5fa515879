//! Splitting and trimming text: the tokenizer every wire format of the chat uses.
use vstd::prelude::*;
use vstd::string::*;

verus! {

broadcast use vstd::string::group_string_axioms;

/// Unicode `White_Space`, the set of characters that `str::trim` removes.
pub open spec fn is_ws(c: char) -> bool {
    let u = c as u32;
    ||| 0x9 <= u <= 0xD
    ||| u == 0x20
    ||| u == 0x85
    ||| u == 0xA0
    ||| u == 0x1680
    ||| 0x2000 <= u <= 0x200A
    ||| u == 0x2028
    ||| u == 0x2029
    ||| u == 0x202F
    ||| u == 0x205F
    ||| u == 0x3000
}

/// `s` with its leading whitespace removed.
pub open spec fn trim_start(s: Seq<char>) -> Seq<char>
    decreases s.len(),
{
    if s.len() > 0 && is_ws(s[0]) {
        trim_start(s.drop_first())
    } else {
        s
    }
}

/// `s` with its trailing whitespace removed.
pub open spec fn trim_end(s: Seq<char>) -> Seq<char>
    decreases s.len(),
{
    if s.len() > 0 && is_ws(s.last()) {
        trim_end(s.drop_last())
    } else {
        s
    }
}

/// `s` with whitespace removed at both ends, as `str::trim` does.
pub open spec fn trim(s: Seq<char>) -> Seq<char> {
    trim_end(trim_start(s))
}

/// The pieces of `s` between the occurrences of `sep`, as `str::split` yields them:
/// one more piece than there are separators, empty pieces included.
pub open spec fn split(s: Seq<char>, sep: char) -> Seq<Seq<char>>
    decreases s.len(),
{
    if s.len() == 0 {
        seq![Seq::<char>::empty()]
    } else {
        let init = split(s.drop_last(), sep);
        if s.last() == sep {
            init.push(Seq::<char>::empty())
        } else {
            init.update(init.len() - 1, init.last().push(s.last()))
        }
    }
}

/// Each piece trimmed, and the pieces that are then empty left out.
pub open spec fn clean(pieces: Seq<Seq<char>>) -> Seq<Seq<char>>
    decreases pieces.len(),
{
    if pieces.len() == 0 {
        Seq::empty()
    } else {
        let init = clean(pieces.drop_last());
        let t = trim(pieces.last());
        if t.len() > 0 {
            init.push(t)
        } else {
            init
        }
    }
}

/// What `split_and_clean` returns for `text` and `sep`.
pub open spec fn split_and_clean_spec(text: Seq<char>, sep: char) -> Seq<Seq<char>> {
    clean(split(text, sep))
}

/// The views of a sequence of string slices.
pub open spec fn views(v: Seq<&str>) -> Seq<Seq<char>> {
    v.map_values(|s: &str| s@)
}

proof fn lemma_split_len(s: Seq<char>, sep: char)
    ensures
        split(s, sep).len() >= 1,
    decreases s.len(),
{
    if s.len() > 0 {
        lemma_split_len(s.drop_last(), sep);
    }
}

/// Whether `c` is whitespace in the sense of `char::is_whitespace`.
pub fn is_whitespace(c: char) -> (r: bool)
    ensures
        r == is_ws(c),
{
    let u = c as u32;
    (0x9 <= u && u <= 0xD) || u == 0x20 || u == 0x85 || u == 0xA0 || u == 0x1680 || (0x2000 <= u
        && u <= 0x200A) || u == 0x2028 || u == 0x2029 || u == 0x202F || u == 0x205F || u == 0x3000
}

/// The characters of `s`, in order.
pub fn str_chars(s: &str) -> (res: Vec<char>)
    ensures
        res@ == s@,
{
    let mut v: Vec<char> = Vec::new();
    for c in it: s.chars()
        invariant
            v@ == it.seq().take(it.index() as int),
    {
        v.push(c);
    }
    v
}

/// Whether `a` and `b` hold the same characters.
pub fn str_equal(a: &str, b: &str) -> (r: bool)
    ensures
        r == (a@ == b@),
{
    let x = str_chars(a);
    let y = str_chars(b);
    if x.len() != y.len() {
        return false;
    }
    let mut i: usize = 0;
    while i < x.len()
        invariant
            x@ == a@,
            y@ == b@,
            x@.len() == y@.len(),
            i <= x@.len(),
            forall|j: int| 0 <= j < i ==> x@[j] == y@[j],
        decreases x@.len() - i,
    {
        if x[i] != y[i] {
            return false;
        }
        i = i + 1;
    }
    assert(a@ =~= b@);
    true
}

/// The pieces joined with single spaces, as `[&str]::join(" ")` gives them.
pub fn join_words(words: &Vec<&str>, from: usize) -> (res: String)
    requires
        from <= words@.len(),
    ensures
        res@ == join(views(words@).subrange(from as int, words@.len() as int), ' '),
{
    let ghost all = views(words@);
    let mut out = String::new();
    let mut i: usize = from;
    assert(all.subrange(from as int, from as int) =~= Seq::<Seq<char>>::empty());
    while i < words.len()
        invariant
            from <= i <= words@.len(),
            all == views(words@),
            out@ == join(all.subrange(from as int, i as int), ' '),
        decreases words@.len() - i,
    {
        let ghost before = all.subrange(from as int, i as int);
        let ghost after = all.subrange(from as int, i + 1);
        assert(after.drop_last() =~= before);
        assert(after.last() == words@[i as int]@);
        if i > from {
            crate::codec::push_char(&mut out, ' ');
        } else {
            assert(before.len() == 0);
        }
        crate::codec::push_str(&mut out, words[i]);
        i = i + 1;
    }
    out
}

/// The first `n` pieces joined with `sep`, as `[&str]::join` gives them.
pub fn join_prefix(words: &Vec<&str>, n: usize, sep: char) -> (res: String)
    requires
        n <= words@.len(),
    ensures
        res@ == join(views(words@).take(n as int), sep),
{
    let ghost all = views(words@);
    let mut out = String::new();
    let mut i: usize = 0;
    assert(all.take(0) =~= Seq::<Seq<char>>::empty());
    while i < n
        invariant
            i <= n <= words@.len(),
            all == views(words@),
            out@ == join(all.take(i as int), sep),
        decreases n - i,
    {
        let ghost before = all.take(i as int);
        let ghost after = all.take(i + 1);
        assert(after.drop_last() =~= before);
        assert(after.last() == words@[i as int]@);
        if i > 0 {
            crate::codec::push_char(&mut out, sep);
        } else {
            assert(before.len() == 0);
        }
        crate::codec::push_str(&mut out, words[i]);
        i = i + 1;
    }
    out
}

/// The pieces that are not empty.
pub open spec fn drop_empty(pieces: Seq<Seq<char>>) -> Seq<Seq<char>>
    decreases pieces.len(),
{
    if pieces.len() == 0 {
        Seq::empty()
    } else if pieces.last().len() > 0 {
        drop_empty(pieces.drop_last()).push(pieces.last())
    } else {
        drop_empty(pieces.drop_last())
    }
}

/// What `text.split(sep).filter(|s| !s.is_empty())` gives.
pub open spec fn split_nonempty_spec(text: Seq<char>, sep: char) -> Seq<Seq<char>> {
    drop_empty(split(text, sep))
}

/// `text` split at `sep`, the empty pieces dropped, nothing trimmed.
pub fn split_nonempty<'a>(text: &'a str, sep: char) -> (res: Vec<&'a str>)
    ensures
        views(res@) == split_nonempty_spec(text@, sep),
{
    let chars = str_chars(text);
    let n = chars.len();
    let mut res: Vec<&'a str> = Vec::new();
    let mut start: usize = 0;
    let mut i: usize = 0;
    let ghost mut done: Seq<Seq<char>> = Seq::empty();
    assert(chars@.take(0) =~= Seq::<char>::empty());
    assert(chars@.subrange(0, 0) =~= Seq::<char>::empty());
    while i < n
        invariant
            n == chars@.len(),
            chars@ == text@,
            start <= i <= n,
            split(chars@.take(i as int), sep) == done.push(chars@.subrange(start as int, i as int)),
            views(res@) == drop_empty(done),
        decreases n - i,
    {
        let ghost prefix = chars@.take(i as int);
        assert(chars@.take(i + 1).drop_last() =~= prefix);
        assert(chars@.take(i + 1).last() == chars@[i as int]);
        if chars[i] == sep {
            let ghost piece = chars@.subrange(start as int, i as int);
            assert(drop_empty(done.push(piece)) == (if piece.len() > 0 {
                drop_empty(done).push(piece)
            } else {
                drop_empty(done)
            })) by {
                assert(done.push(piece).drop_last() =~= done);
            }
            if start < i {
                let p = text.substring_char(start, i);
                res.push(p);
                assert(views(res@) =~= views(res@.drop_last()).push(p@));
            }
            proof {
                done = done.push(piece);
            }
            start = i + 1;
            assert(chars@.subrange(start as int, i + 1) =~= Seq::<char>::empty());
        } else {
            assert(chars@.subrange(start as int, i + 1) =~= chars@.subrange(
                start as int,
                i as int,
            ).push(chars@[i as int]));
        }
        i = i + 1;
    }
    let ghost piece = chars@.subrange(start as int, n as int);
    assert(chars@.take(n as int) =~= chars@);
    assert(drop_empty(done.push(piece)) == (if piece.len() > 0 {
        drop_empty(done).push(piece)
    } else {
        drop_empty(done)
    })) by {
        assert(done.push(piece).drop_last() =~= done);
    }
    if start < n {
        let p = text.substring_char(start, n);
        res.push(p);
        assert(views(res@) =~= views(res@.drop_last()).push(p@));
    }
    res
}

/// The bounds, within `[lo, hi)` of `chars`, of that range with its whitespace trimmed.
fn trim_range(chars: &Vec<char>, lo: usize, hi: usize) -> (r: (usize, usize))
    requires
        lo <= hi <= chars@.len(),
    ensures
        lo <= r.0 <= r.1 <= hi,
        chars@.subrange(r.0 as int, r.1 as int) == trim(chars@.subrange(lo as int, hi as int)),
{
    let mut a = lo;
    while a < hi && is_whitespace(chars[a])
        invariant
            lo <= a <= hi <= chars@.len(),
            trim_start(chars@.subrange(lo as int, hi as int)) == trim_start(
                chars@.subrange(a as int, hi as int),
            ),
        decreases hi - a,
    {
        assert(chars@.subrange(a as int, hi as int).drop_first() =~= chars@.subrange(
            a + 1,
            hi as int,
        ));
        a = a + 1;
    }
    assert(trim_start(chars@.subrange(a as int, hi as int)) == chars@.subrange(a as int, hi as int));
    let mut b = hi;
    while b > a && is_whitespace(chars[b - 1])
        invariant
            lo <= a <= b <= hi <= chars@.len(),
            trim(chars@.subrange(lo as int, hi as int)) == trim_end(
                chars@.subrange(a as int, b as int),
            ),
        decreases b - a,
    {
        assert(chars@.subrange(a as int, b as int).drop_last() =~= chars@.subrange(
            a as int,
            b - 1,
        ));
        b = b - 1;
    }
    (a, b)
}

/// Splits `text` at every `sep`, trims whitespace off each piece and drops the
/// pieces that are then empty.
pub fn split_and_clean<'a>(text: &'a str, sep: char) -> (res: Vec<&'a str>)
    ensures
        views(res@) == split_and_clean_spec(text@, sep),
{
    let chars = str_chars(text);
    let n = chars.len();
    let mut res: Vec<&'a str> = Vec::new();
    let mut start: usize = 0;
    let mut i: usize = 0;
    let ghost mut done: Seq<Seq<char>> = Seq::empty();
    assert(chars@.take(0) =~= Seq::<char>::empty());
    assert(chars@.subrange(0, 0) =~= Seq::<char>::empty());
    while i < n
        invariant
            n == chars@.len(),
            chars@ == text@,
            start <= i <= n,
            split(chars@.take(i as int), sep) == done.push(chars@.subrange(start as int, i as int)),
            views(res@) == clean(done),
        decreases n - i,
    {
        let ghost prefix = chars@.take(i as int);
        assert(chars@.take(i + 1).drop_last() =~= prefix);
        assert(chars@.take(i + 1).last() == chars@[i as int]);
        if chars[i] == sep {
            let (a, b) = trim_range(&chars, start, i);
            let ghost piece = chars@.subrange(start as int, i as int);
            assert(clean(done.push(piece)) == (if trim(piece).len() > 0 {
                clean(done).push(trim(piece))
            } else {
                clean(done)
            })) by {
                assert(done.push(piece).drop_last() =~= done);
            }
            if a < b {
                let p = text.substring_char(a, b);
                res.push(p);
                assert(views(res@) =~= views(res@.drop_last()).push(p@));
            }
            proof {
                done = done.push(piece);
            }
            start = i + 1;
            assert(chars@.subrange(start as int, i + 1) =~= Seq::<char>::empty());
        } else {
            assert(chars@.subrange(start as int, i + 1) =~= chars@.subrange(
                start as int,
                i as int,
            ).push(chars@[i as int]));
        }
        i = i + 1;
    }
    let (a, b) = trim_range(&chars, start, n);
    let ghost piece = chars@.subrange(start as int, n as int);
    assert(chars@.take(n as int) =~= chars@);
    assert(clean(done.push(piece)) == (if trim(piece).len() > 0 {
        clean(done).push(trim(piece))
    } else {
        clean(done)
    })) by {
        assert(done.push(piece).drop_last() =~= done);
    }
    if a < b {
        let p = text.substring_char(a, b);
        res.push(p);
        assert(views(res@) =~= views(res@.drop_last()).push(p@));
    }
    res
}

}

verus! {

/// The pieces joined with `sep` between each two of them.
pub open spec fn join(pieces: Seq<Seq<char>>, sep: char) -> Seq<char>
    decreases pieces.len(),
{
    if pieces.len() == 0 {
        Seq::empty()
    } else if pieces.len() == 1 {
        pieces[0]
    } else {
        join(pieces.drop_last(), sep) + seq![sep] + pieces.last()
    }
}

/// A piece that `split_and_clean` gives back unchanged: not empty, and holding neither
/// the separator nor whitespace.
pub open spec fn plain_piece(p: Seq<char>, sep: char) -> bool {
    &&& p.len() > 0
    &&& forall|i: int| 0 <= i < p.len() ==> #[trigger] p[i] != sep && !is_ws(p[i])
}

/// Every piece of `ps` is plain.
pub open spec fn plain_pieces(ps: Seq<Seq<char>>, sep: char) -> bool {
    forall|i: int| 0 <= i < ps.len() ==> plain_piece(#[trigger] ps[i], sep)
}

proof fn lemma_split_concat(x: Seq<char>, y: Seq<char>, sep: char)
    ensures
        split(x + seq![sep] + y, sep) == split(x, sep) + split(y, sep),
    decreases y.len(),
{
    lemma_split_len(x, sep);
    if y.len() == 0 {
        assert((x + seq![sep] + y).drop_last() =~= x);
        assert(split(y, sep) =~= seq![Seq::<char>::empty()]);
        assert(split(x, sep).push(Seq::<char>::empty()) =~= split(x, sep) + split(y, sep));
    } else {
        let y0 = y.drop_last();
        lemma_split_concat(x, y0, sep);
        lemma_split_len(y0, sep);
        assert((x + seq![sep] + y).drop_last() =~= x + seq![sep] + y0);
        assert((x + seq![sep] + y).last() == y.last());
        let a = split(x, sep);
        let b = split(y0, sep);
        if y.last() == sep {
            assert((a + b).push(Seq::<char>::empty()) =~= a + b.push(Seq::<char>::empty()));
        } else {
            assert((a + b).update((a + b).len() - 1, (a + b).last().push(y.last())) =~= a
                + b.update(b.len() - 1, b.last().push(y.last())));
        }
    }
}

proof fn lemma_split_plain(x: Seq<char>, sep: char)
    requires
        forall|i: int| 0 <= i < x.len() ==> #[trigger] x[i] != sep,
    ensures
        split(x, sep) == seq![x],
    decreases x.len(),
{
    if x.len() > 0 {
        lemma_split_plain(x.drop_last(), sep);
        assert(x.drop_last().push(x.last()) =~= x);
        assert(seq![x.drop_last()].update(0, x.drop_last().push(x.last())) =~= seq![x]);
    } else {
        assert(x =~= Seq::<char>::empty());
    }
}

proof fn lemma_trim_plain(x: Seq<char>)
    requires
        forall|i: int| 0 <= i < x.len() ==> !is_ws(#[trigger] x[i]),
    ensures
        trim(x) == x,
{
}

proof fn lemma_clean_concat(p: Seq<Seq<char>>, q: Seq<Seq<char>>)
    ensures
        clean(p + q) == clean(p) + clean(q),
    decreases q.len(),
{
    if q.len() == 0 {
        assert(p + q =~= p);
        assert(clean(p) + clean(q) =~= clean(p));
    } else {
        lemma_clean_concat(p, q.drop_last());
        assert((p + q).drop_last() =~= p + q.drop_last());
        let t = trim(q.last());
        if t.len() > 0 {
            assert((clean(p) + clean(q.drop_last())).push(t) =~= clean(p) + clean(q.drop_last()).push(t));
        }
    }
}

proof fn lemma_split_join(ps: Seq<Seq<char>>, sep: char)
    requires
        ps.len() >= 1,
        plain_pieces(ps, sep),
    ensures
        split(join(ps, sep), sep) == ps,
    decreases ps.len(),
{
    assert(plain_piece(ps.last(), sep));
    lemma_split_plain(ps.last(), sep);
    if ps.len() == 1 {
        assert(seq![ps[0]] =~= ps);
    } else {
        let init = ps.drop_last();
        assert forall|i: int| 0 <= i < init.len() implies plain_piece(#[trigger] init[i], sep) by {
            assert(plain_piece(ps[i], sep));
        }
        lemma_split_join(init, sep);
        lemma_split_concat(join(init, sep), ps.last(), sep);
        assert(init + seq![ps.last()] =~= ps);
    }
}

proof fn lemma_clean_plain(ps: Seq<Seq<char>>, sep: char)
    requires
        plain_pieces(ps, sep),
    ensures
        clean(ps) == ps,
    decreases ps.len(),
{
    if ps.len() > 0 {
        let init = ps.drop_last();
        assert forall|i: int| 0 <= i < init.len() implies plain_piece(#[trigger] init[i], sep) by {
            assert(plain_piece(ps[i], sep));
        }
        lemma_clean_plain(init, sep);
        assert(plain_piece(ps.last(), sep));
        lemma_trim_plain(ps.last());
        assert(init.push(ps.last()) =~= ps);
    } else {
        assert(ps =~= Seq::<Seq<char>>::empty());
    }
}

proof fn lemma_trim_start_shape(x: Seq<char>)
    ensures
        trim_start(x).len() <= x.len(),
        trim_start(x) == x.subrange(x.len() - trim_start(x).len(), x.len() as int),
        trim_start(x).len() > 0 ==> !is_ws(trim_start(x)[0]),
    decreases x.len(),
{
    if x.len() > 0 && is_ws(x[0]) {
        let r = x.drop_first();
        lemma_trim_start_shape(r);
        assert(r.subrange(r.len() - trim_start(r).len(), r.len() as int) =~= x.subrange(
            x.len() - trim_start(r).len(),
            x.len() as int,
        ));
    } else {
        assert(x.subrange(0, x.len() as int) =~= x);
    }
}

proof fn lemma_trim_end_shape(x: Seq<char>)
    ensures
        trim_end(x).len() <= x.len(),
        trim_end(x) == x.subrange(0, trim_end(x).len() as int),
        trim_end(x).len() > 0 ==> !is_ws(trim_end(x).last()),
    decreases x.len(),
{
    if x.len() > 0 && is_ws(x.last()) {
        let r = x.drop_last();
        lemma_trim_end_shape(r);
        assert(r.subrange(0, trim_end(r).len() as int) =~= x.subrange(0, trim_end(r).len() as int));
    } else {
        assert(x.subrange(0, x.len() as int) =~= x);
    }
}

/// A trimmed text is a run of the text's characters, not empty or starting and ending with
/// characters that are not whitespace; trimming it again changes nothing.
proof fn lemma_trim_shape(x: Seq<char>)
    ensures
        forall|i: int| 0 <= i < trim(x).len() ==> exists|j: int| 0 <= j < x.len() && #[trigger] trim(x)[i] == x[j],
        trim(trim(x)) == trim(x),
{
    let y = trim_start(x);
    let z = trim_end(y);
    lemma_trim_start_shape(x);
    lemma_trim_end_shape(y);
    let k = x.len() - y.len();
    assert forall|i: int| 0 <= i < z.len() implies exists|j: int| 0 <= j < x.len() && #[trigger] z[i] == x[j] by {
        assert(z[i] == y[i]);
        assert(y[i] == x[k + i]);
    }
    if z.len() > 0 {
        assert(z[0] == y[0]);
        assert(trim_start(z) == z);
        assert(trim_end(z) == z);
    } else {
        assert(trim_start(z) == z);
    }
}

proof fn lemma_split_no_sep(s: Seq<char>, sep: char)
    ensures
        forall|k: int, i: int| 0 <= k < split(s, sep).len() && 0 <= i < split(s, sep)[k].len() ==> #[trigger] split(s, sep)[k][i] != sep,
    decreases s.len(),
{
    if s.len() > 0 {
        let init = split(s.drop_last(), sep);
        lemma_split_no_sep(s.drop_last(), sep);
        lemma_split_len(s.drop_last(), sep);
        if s.last() != sep {
            let u = init.update(init.len() - 1, init.last().push(s.last()));
            assert forall|k: int, i: int| 0 <= k < u.len() && 0 <= i < u[k].len() implies #[trigger] u[k][i] != sep by {
                if k == init.len() - 1 && i < init.last().len() {
                    assert(u[k][i] == init[k][i]);
                } else if k < init.len() - 1 {
                    assert(u[k] == init[k]);
                }
            }
        } else {
            let u = init.push(Seq::<char>::empty());
            assert forall|k: int, i: int| 0 <= k < u.len() && 0 <= i < u[k].len() implies #[trigger] u[k][i] != sep by {
                assert(u[k] == init[k]);
            }
        }
    }
}

/// Whether `p` is a piece that `split_and_clean` gives: not empty, without the separator, and
/// without whitespace at either end.
pub open spec fn clean_piece(p: Seq<char>, sep: char) -> bool {
    &&& p.len() > 0
    &&& forall|i: int| 0 <= i < p.len() ==> #[trigger] p[i] != sep
    &&& trim(p) == p
}

proof fn lemma_clean_shape(ps: Seq<Seq<char>>, sep: char)
    requires
        forall|k: int, i: int| 0 <= k < ps.len() && 0 <= i < ps[k].len() ==> #[trigger] ps[k][i] != sep,
    ensures
        forall|k: int| 0 <= k < clean(ps).len() ==> clean_piece(#[trigger] clean(ps)[k], sep),
    decreases ps.len(),
{
    if ps.len() > 0 {
        let init = ps.drop_last();
        assert forall|k: int, i: int| 0 <= k < init.len() && 0 <= i < init[k].len() implies #[trigger] init[k][i] != sep by {
            assert(init[k] == ps[k]);
        }
        lemma_clean_shape(init, sep);
        let t = trim(ps.last());
        lemma_trim_shape(ps.last());
        if t.len() > 0 {
            let c = clean(init).push(t);
            assert forall|k: int| 0 <= k < c.len() implies clean_piece(#[trigger] c[k], sep) by {
                if k == clean(init).len() {
                    assert forall|i: int| 0 <= i < t.len() implies #[trigger] t[i] != sep by {
                        let j = choose|j: int| 0 <= j < ps.last().len() && t[i] == ps.last()[j];
                        assert(ps.last() == ps[ps.len() - 1]);
                        assert(ps[ps.len() - 1][j] != sep);
                    }
                } else {
                    assert(c[k] == clean(init)[k]);
                }
            }
        }
    }
}

proof fn lemma_split_join_pieces(ps: Seq<Seq<char>>, sep: char)
    requires
        ps.len() >= 1,
        forall|k: int| 0 <= k < ps.len() ==> clean_piece(#[trigger] ps[k], sep),
    ensures
        split(join(ps, sep), sep) == ps,
    decreases ps.len(),
{
    assert(clean_piece(ps.last(), sep));
    lemma_split_plain(ps.last(), sep);
    if ps.len() == 1 {
        assert(seq![ps[0]] =~= ps);
    } else {
        let init = ps.drop_last();
        assert forall|k: int| 0 <= k < init.len() implies clean_piece(#[trigger] init[k], sep) by {
            assert(init[k] == ps[k]);
        }
        lemma_split_join_pieces(init, sep);
        lemma_split_concat(join(init, sep), ps.last(), sep);
        assert(init + seq![ps.last()] =~= ps);
    }
}

proof fn lemma_clean_pieces(ps: Seq<Seq<char>>, sep: char)
    requires
        forall|k: int| 0 <= k < ps.len() ==> clean_piece(#[trigger] ps[k], sep),
    ensures
        clean(ps) == ps,
    decreases ps.len(),
{
    if ps.len() > 0 {
        let init = ps.drop_last();
        assert forall|k: int| 0 <= k < init.len() implies clean_piece(#[trigger] init[k], sep) by {
            assert(init[k] == ps[k]);
        }
        lemma_clean_pieces(init, sep);
        assert(clean_piece(ps.last(), sep));
        assert(init.push(ps.last()) =~= ps);
    } else {
        assert(ps =~= Seq::<Seq<char>>::empty());
    }
}

/// Splitting and cleaning is idempotent: the pieces that `split_and_clean` gives, joined by
/// the separator, split and clean back to the same pieces.
pub proof fn lemma_split_and_clean_idempotent(text: Seq<char>, sep: char)
    ensures
        split_and_clean_spec(join(split_and_clean_spec(text, sep), sep), sep) == split_and_clean_spec(text, sep),
{
    let r = split_and_clean_spec(text, sep);
    lemma_split_no_sep(text, sep);
    lemma_clean_shape(split(text, sep), sep);
    if r.len() == 0 {
        let e = Seq::<char>::empty();
        assert(join(r, sep) == e);
        assert(split(e, sep) =~= seq![e]);
        assert(seq![e].drop_last() =~= Seq::<Seq<char>>::empty());
        assert(seq![e].last() == e);
        assert(trim(e).len() == 0);
        assert(clean(Seq::<Seq<char>>::empty()) == Seq::<Seq<char>>::empty());
        assert(clean(seq![e]) =~= r);
    } else {
        lemma_split_join_pieces(r, sep);
        lemma_clean_pieces(r, sep);
    }
}

/// Splitting and cleaning plain pieces joined by the separator gives the pieces back.
pub proof fn lemma_split_and_clean_join(ps: Seq<Seq<char>>, sep: char)
    requires
        ps.len() >= 1,
        plain_pieces(ps, sep),
    ensures
        split_and_clean_spec(join(ps, sep), sep) == ps,
{
    lemma_split_join(ps, sep);
    lemma_clean_plain(ps, sep);
}

/// The same holds with a separator before the first piece and after the last.
pub proof fn lemma_split_and_clean_framed(ps: Seq<Seq<char>>, sep: char)
    requires
        ps.len() >= 1,
        plain_pieces(ps, sep),
    ensures
        split_and_clean_spec(seq![sep] + join(ps, sep) + seq![sep], sep) == ps,
{
    let e = Seq::<char>::empty();
    let j = join(ps, sep);
    assert(seq![sep] + j + seq![sep] =~= e + seq![sep] + (j + seq![sep] + e));
    lemma_split_concat(e, j + seq![sep] + e, sep);
    lemma_split_concat(j, e, sep);
    lemma_split_join(ps, sep);
    assert(split(e, sep) =~= seq![e]);
    lemma_clean_concat(seq![e], ps + seq![e]);
    lemma_clean_concat(ps, seq![e]);
    lemma_clean_plain(ps, sep);
    assert(clean(seq![e]) =~= Seq::<Seq<char>>::empty()) by {
        assert(seq![e].drop_last() =~= Seq::<Seq<char>>::empty());
        assert(seq![e].last() == e);
        assert(trim(e).len() == 0);
        assert(clean(Seq::<Seq<char>>::empty()) == Seq::<Seq<char>>::empty());
    }
    assert(Seq::<Seq<char>>::empty() + (ps + Seq::<Seq<char>>::empty()) =~= ps);
}


/// Each piece followed by the separator, the pieces one after the other.
pub open spec fn terminated(pieces: Seq<Seq<char>>, sep: char) -> Seq<char>
    decreases pieces.len(),
{
    if pieces.len() == 0 {
        Seq::empty()
    } else {
        terminated(pieces.drop_last(), sep) + pieces.last() + seq![sep]
    }
}

proof fn lemma_terminated_join(ps: Seq<Seq<char>>, sep: char)
    requires
        ps.len() >= 1,
    ensures
        terminated(ps, sep) == join(ps, sep) + seq![sep],
    decreases ps.len(),
{
    if ps.len() == 1 {
        assert(ps.drop_last() =~= Seq::<Seq<char>>::empty());
        assert(terminated(ps, sep) =~= join(ps, sep) + seq![sep]);
    } else {
        lemma_terminated_join(ps.drop_last(), sep);
        assert(join(ps, sep) == join(ps.drop_last(), sep) + seq![sep] + ps.last());
        assert(terminated(ps, sep) == terminated(ps.drop_last(), sep) + ps.last() + seq![sep]);
        assert(terminated(ps, sep) =~= join(ps, sep) + seq![sep]);
    }
}

/// Splitting and cleaning plain pieces, each followed by the separator, gives the pieces back.
pub proof fn lemma_split_and_clean_terminated(ps: Seq<Seq<char>>, sep: char)
    requires
        plain_pieces(ps, sep),
    ensures
        split_and_clean_spec(terminated(ps, sep), sep) == ps,
{
    let e = Seq::<char>::empty();
    if ps.len() == 0 {
        assert(terminated(ps, sep) =~= e);
        assert(split(e, sep) =~= seq![e]);
        assert(seq![e].drop_last() =~= Seq::<Seq<char>>::empty());
        assert(seq![e].last() == e);
        assert(trim(e).len() == 0);
        assert(clean(Seq::<Seq<char>>::empty()) == Seq::<Seq<char>>::empty());
        assert(clean(seq![e]) =~= ps);
    } else {
        lemma_terminated_join(ps, sep);
        let j = join(ps, sep);
        assert(j + seq![sep] =~= j + seq![sep] + e);
        lemma_split_concat(j, e, sep);
        lemma_split_join(ps, sep);
        assert(split(e, sep) =~= seq![e]);
        lemma_clean_concat(ps, seq![e]);
        lemma_clean_plain(ps, sep);
        assert(clean(seq![e]) =~= Seq::<Seq<char>>::empty()) by {
            assert(seq![e].drop_last() =~= Seq::<Seq<char>>::empty());
            assert(seq![e].last() == e);
            assert(trim(e).len() == 0);
            assert(clean(Seq::<Seq<char>>::empty()) == Seq::<Seq<char>>::empty());
        }
        assert(ps + Seq::<Seq<char>>::empty() =~= ps);
    }
}
}

verus! {

/// `s` without any occurrence of `c`.
pub open spec fn strip(s: Seq<char>, c: char) -> Seq<char>
    decreases s.len(),
{
    if s.len() == 0 {
        s
    } else if s.last() == c {
        strip(s.drop_last(), c)
    } else {
        strip(s.drop_last(), c).push(s.last())
    }
}

/// Removing `c` from two texts put together removes it from each of them.
pub proof fn lemma_strip_concat(a: Seq<char>, b: Seq<char>, c: char)
    ensures
        strip(a + b, c) == strip(a, c) + strip(b, c),
    decreases b.len(),
{
    if b.len() == 0 {
        assert(a + b =~= a);
        assert(strip(a, c) + strip(b, c) =~= strip(a, c));
    } else {
        assert((a + b).drop_last() =~= a + b.drop_last());
        assert((a + b).last() == b.last());
        lemma_strip_concat(a, b.drop_last(), c);
        if b.last() != c {
            assert(strip(a, c) + strip(b.drop_last(), c).push(b.last()) =~= (strip(a, c) + strip(
                b.drop_last(),
                c,
            )).push(b.last()));
        }
    }
}

/// A text in which `c` does not occur is left as it is.
pub proof fn lemma_strip_absent(s: Seq<char>, c: char)
    requires
        forall|i: int| 0 <= i < s.len() ==> s[i] != c,
    ensures
        strip(s, c) == s,
    decreases s.len(),
{
    if s.len() > 0 {
        assert forall|i: int| 0 <= i < s.drop_last().len() implies s.drop_last()[i] != c by {
            assert(s.drop_last()[i] == s[i]);
        }
        lemma_strip_absent(s.drop_last(), c);
        assert(s.drop_last().push(s.last()) =~= s);
    }
}

/// `s` with every `c` removed, as `s.replace(c, "")` gives it.
pub fn remove_char(s: &str, c: char) -> (res: String)
    ensures
        res@ == strip(s@, c),
{
    let chars = str_chars(s);
    let mut out = String::new();
    let mut i: usize = 0;
    assert(chars@.take(0) =~= Seq::<char>::empty());
    while i < chars.len()
        invariant
            i <= chars@.len(),
            chars@ == s@,
            out@ == strip(chars@.take(i as int), c),
        decreases chars@.len() - i,
    {
        assert(chars@.take(i + 1).drop_last() =~= chars@.take(i as int));
        if chars[i] != c {
            crate::codec::push_char(&mut out, chars[i]);
        }
        i = i + 1;
    }
    assert(chars@.take(chars@.len() as int) =~= chars@);
    out
}

}
