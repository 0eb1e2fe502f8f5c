//! The schema sidecar format: column names stored as one comma-joined line.
//! Names are joined without escaping, so a name containing a comma does not
//! survive the round trip; the round-trip law is stated for comma-free names.
use vstd::prelude::*;

verus! {

/// The comma-joined form of a list of names.
pub open spec fn comma_join_spec(s: Seq<Seq<char>>) -> Seq<char>
    decreases s.len(),
{
    if s.len() == 0 {
        Seq::empty()
    } else if s.len() == 1 {
        s[0]
    } else {
        s[0] + seq![','] + comma_join_spec(s.drop_first())
    }
}

/// The pieces of a line split on every comma; splitting an empty line gives
/// one empty piece.
pub open spec fn comma_split_spec(s: Seq<char>) -> Seq<Seq<char>>
    decreases s.len(),
{
    if s.len() == 0 {
        seq![Seq::<char>::empty()]
    } else if s[0] == ',' {
        seq![Seq::<char>::empty()] + comma_split_spec(s.drop_first())
    } else {
        let r = comma_split_spec(s.drop_first());
        r.update(0, seq![s[0]] + r[0])
    }
}

/// A line without commas splits into exactly itself.
pub proof fn lemma_split_no_comma(t: Seq<char>)
    requires
        forall|j: int| 0 <= j < t.len() ==> t[j] != ',',
    ensures
        comma_split_spec(t) == seq![t],
    decreases t.len(),
{
    if t.len() == 0 {
        assert(t =~= Seq::<char>::empty());
        assert(comma_split_spec(t) =~= seq![t]);
    } else {
        lemma_split_no_comma(t.drop_first());
        let r = comma_split_spec(t.drop_first());
        assert(r.update(0, seq![t[0]] + r[0]) =~= seq![t]) by {
            assert(seq![t[0]] + t.drop_first() =~= t);
        }
    }
}

/// Splitting a line whose first comma stands at position `k` gives the piece
/// before it, then the pieces of the rest.
pub proof fn lemma_split_first_comma(t: Seq<char>, k: int)
    requires
        0 <= k < t.len(),
        t[k] == ',',
        forall|j: int| 0 <= j < k ==> t[j] != ',',
    ensures
        comma_split_spec(t) == seq![t.take(k)] + comma_split_spec(t.skip(k + 1)),
    decreases k,
{
    if k == 0 {
        assert(comma_split_spec(t) =~= seq![t.take(0)] + comma_split_spec(t.skip(1))) by {
            assert(t.drop_first() =~= t.skip(1));
            assert(t.take(0) =~= Seq::<char>::empty());
        }
    } else {
        let d = t.drop_first();
        assert(forall|j: int| 0 <= j < k - 1 ==> d[j] != ',');
        lemma_split_first_comma(d, k - 1);
        let r = comma_split_spec(d);
        assert(r == seq![d.take(k - 1)] + comma_split_spec(d.skip(k)));
        assert(comma_split_spec(t) == r.update(0, seq![t[0]] + r[0]));
        assert(r.update(0, seq![t[0]] + r[0]) =~= seq![t.take(k)] + comma_split_spec(t.skip(k + 1)))
            by {
            assert(seq![t[0]] + d.take(k - 1) =~= t.take(k));
            assert(d.skip(k) =~= t.skip(k + 1));
        }
    }
}

/// Join a list of names with commas, without escaping.
pub fn comma_join(cols: &Vec<String>) -> (r: String)
    ensures
        r@ == comma_join_spec(cols.deep_view()),
{
    let mut r = String::new();
    let mut i: usize = 0;
    while i < cols.len()
        invariant
            i <= cols@.len(),
            r@ == comma_join_spec(cols.deep_view().take(i as int)),
        decreases cols@.len() - i,
    {
        if i > 0 {
            r.append(",");
            proof {
                reveal_strlit(",");
            }
        }
        r.append(cols[i].as_str());
        proof {
            let dv = cols.deep_view();
            assert(dv.take(i + 1) =~= dv.take(i as int).push(dv[i as int]));
            if i > 0 {
                lemma_join_snoc(dv.take(i as int), dv[i as int]);
            }
            assert(dv[i as int] == cols@[i as int]@);
        }
        i = i + 1;
    }
    proof {
        assert(cols.deep_view().take(cols@.len() as int) =~= cols.deep_view());
    }
    r
}

/// Appending one more name to a nonempty list appends a comma and the name
/// to the joined line.
pub proof fn lemma_join_snoc(s: Seq<Seq<char>>, x: Seq<char>)
    requires
        s.len() >= 1,
    ensures
        comma_join_spec(s.push(x)) == comma_join_spec(s) + seq![','] + x,
    decreases s.len(),
{
    if s.len() == 1 {
        assert(s.push(x).drop_first() =~= seq![x]);
        assert(comma_join_spec(s.push(x)) == s.push(x)[0] + seq![','] + comma_join_spec(
            s.push(x).drop_first(),
        ));
        assert(comma_join_spec(seq![x]) == x);
        assert(s.push(x)[0] == s[0]);
        assert(comma_join_spec(s) == s[0]);
    } else {
        assert(s.push(x).drop_first() =~= s.drop_first().push(x));
        lemma_join_snoc(s.drop_first(), x);
        assert(comma_join_spec(s.push(x)) =~= comma_join_spec(s) + seq![','] + x) by {
            assert(comma_join_spec(s.push(x)) == s[0] + seq![','] + comma_join_spec(
                s.drop_first().push(x),
            ));
            assert(comma_join_spec(s) == s[0] + seq![','] + comma_join_spec(s.drop_first()));
        }
    }
}

/// Split a line on every comma.
pub fn comma_split(s: &str) -> (r: Vec<String>)
    ensures
        r.deep_view() == comma_split_spec(s@),
        r@.len() >= 1,
{
    let len = s.unicode_len();
    let mut r: Vec<String> = Vec::new();
    let mut start: usize = 0;
    let mut i: usize = 0;
    proof {
        assert(s@.skip(0) =~= s@);
        assert(r.deep_view() + comma_split_spec(s@) =~= comma_split_spec(s@));
    }
    while i < len
        invariant
            start <= i <= len,
            len == s@.len(),
            comma_split_spec(s@) =~= r.deep_view() + comma_split_spec(s@.skip(start as int)),
            forall|j: int| start <= j < i ==> s@[j] != ',',
        decreases len - i,
    {
        let c = s.get_char(i);
        if c == ',' {
            let piece = s.substring_char(start, i).to_owned();
            let ghost prev = r.deep_view();
            proof {
                let t = s@.skip(start as int);
                lemma_split_first_comma(t, i - start);
                assert(t.take(i - start) =~= s@.subrange(start as int, i as int));
                assert(t.skip(i - start + 1) =~= s@.skip(i + 1));
            }
            r.push(piece);
            proof {
                assert(r.deep_view() =~= prev.push(piece@));
                assert(prev.push(piece@) + comma_split_spec(s@.skip(i + 1)) =~= prev + (seq![
                    piece@,
                ] + comma_split_spec(s@.skip(i + 1))));
            }
            start = i + 1;
        }
        i = i + 1;
    }
    let piece = s.substring_char(start, len).to_owned();
    let ghost prev = r.deep_view();
    proof {
        let t = s@.skip(start as int);
        lemma_split_no_comma(t);
        assert(t =~= s@.subrange(start as int, len as int));
    }
    r.push(piece);
    proof {
        assert(r.deep_view() =~= prev.push(piece@));
        assert(prev.push(piece@) =~= prev + seq![piece@]);
        assert(comma_split_spec(s@) =~= r.deep_view());
    }
    r
}

/// Recreating a table reloads exactly the columns that were stored: joining
/// a nonempty list of comma-free names and splitting the line again gives
/// back the original list.
pub proof fn lemma_join_split_round_trip(cols: Seq<Seq<char>>)
    requires
        cols.len() >= 1,
        forall|i: int| 0 <= i < cols.len() ==> !cols[i].contains(','),
    ensures
        comma_split_spec(comma_join_spec(cols)) == cols,
    decreases cols.len(),
{
    if cols.len() == 1 {
        assert(forall|j: int| 0 <= j < cols[0].len() ==> cols[0][j] != ',');
        lemma_split_no_comma(cols[0]);
        assert(comma_split_spec(comma_join_spec(cols)) =~= cols);
    } else {
        let c0 = cols[0];
        let rest = cols.drop_first();
        let joined = comma_join_spec(cols);
        assert(joined == c0 + seq![','] + comma_join_spec(rest));
        assert(forall|j: int| 0 <= j < c0.len() ==> c0[j] != ',');
        assert forall|j: int| 0 <= j < c0.len() implies joined[j] != ',' by {
            assert(joined[j] == c0[j]);
        }
        assert(joined[c0.len() as int] == ',');
        lemma_split_first_comma(joined, c0.len() as int);
        assert(joined.take(c0.len() as int) =~= c0);
        assert(joined.skip(c0.len() as int + 1) =~= comma_join_spec(rest));
        assert(forall|i: int| 0 <= i < rest.len() ==> !rest[i].contains(','));
        lemma_join_split_round_trip(rest);
        assert(seq![c0] + rest =~= cols);
    }
}

} // verus!
