use vstd::prelude::*;
use crate::codec::{
    Location, LocModel, decode, decode_spec, encode, encode_spec, wf_loc,
    lemma_encode_decode, lemma_encode_no_break,
};
use crate::text::{split_on, split_char, push_char, lemma_split_on_first, lemma_split_on_whole};

verus! {

/// The whole load was abandoned because one stored line is malformed;
/// `line` is its 1-based position in the file.
#[derive(Clone, Copy, Debug)]
pub struct DatabaseCorrupt {
    pub line: usize,
}

/// The file text cut at every line break.
pub open spec fn raw_lines(s: Seq<char>) -> Seq<Seq<char>> {
    split_on(s, '\n')
}

/// One trailing carriage return is dropped, so files written with
/// `\r\n` endings read the same as plain ones.
pub open spec fn strip_cr(l: Seq<char>) -> Seq<char> {
    if l.len() > 0 && l.last() == '\r' {
        l.drop_last()
    } else {
        l
    }
}

/// Decodes a list of lines in order: blank lines are skipped, and one
/// malformed line fails the whole list.
pub open spec fn decode_lines(ls: Seq<Seq<char>>) -> Option<Seq<LocModel>>
    decreases ls.len(),
{
    if ls.len() == 0 {
        Some(Seq::empty())
    } else {
        let l0 = strip_cr(ls[0]);
        let rest = decode_lines(ls.drop_first());
        if l0.len() == 0 {
            rest
        } else {
            match decode_spec(l0) {
                None => None,
                Some(loc) => match rest {
                    None => None,
                    Some(rs) => Some(seq![loc] + rs),
                },
            }
        }
    }
}

/// The location set a database text denotes, if every line is readable.
pub open spec fn load_spec(s: Seq<char>) -> Option<Seq<LocModel>> {
    decode_lines(raw_lines(s))
}

/// The full text of a saved location set: one encoded line per record, in
/// order, each terminated by a line break.
pub open spec fn save_spec(ls: Seq<LocModel>) -> Seq<char>
    decreases ls.len(),
{
    if ls.len() == 0 {
        Seq::empty()
    } else {
        encode_spec(ls[0]) + seq!['\n'] + save_spec(ls.drop_first())
    }
}

/// Appending one record to the set appends exactly its line to the text.
pub proof fn lemma_save_snoc(ls: Seq<LocModel>, x: LocModel)
    ensures
        save_spec(ls.push(x)) == save_spec(ls) + encode_spec(x) + seq!['\n'],
    decreases ls.len(),
{
    if ls.len() == 0 {
        assert(ls.push(x)[0] == x);
        assert(ls.push(x).drop_first() =~= Seq::<LocModel>::empty());
        assert(save_spec(Seq::<LocModel>::empty()) == Seq::<char>::empty());
        assert(save_spec(ls.push(x)) =~= save_spec(ls) + encode_spec(x) + seq!['\n']);
    } else {
        lemma_save_snoc(ls.drop_first(), x);
        assert(ls.push(x)[0] == ls[0]);
        assert(ls.push(x).drop_first() =~= ls.drop_first().push(x));
        assert(save_spec(ls.push(x)) =~= save_spec(ls) + encode_spec(x) + seq!['\n']);
    }
}

/// Reads the entire database text into a location set. Blank lines are
/// skipped; the first malformed line aborts the load (a corrupt database
/// is not partially trusted) and is reported by its line number.
pub fn load(text: &str) -> (r: Result<Vec<Location>, DatabaseCorrupt>)
    ensures
        match r {
            Ok(v) => load_spec(text@) == Some(v.deep_view()),
            Err(e) => {
                &&& load_spec(text@) is None
                &&& 1 <= e.line <= raw_lines(text@).len()
                &&& decode_spec(strip_cr(raw_lines(text@)[e.line - 1])) is None
                &&& strip_cr(raw_lines(text@)[e.line - 1]).len() > 0
            },
        },
{
    let lines = split_char(text, '\n');
    let ghost rl = raw_lines(text@);
    let mut out: Vec<Location> = Vec::new();
    let mut i: usize = 0;
    proof {
        assert(rl.skip(0) =~= rl);
        assert(out.deep_view() =~= Seq::<LocModel>::empty());
    }
    while i < lines.len()
        invariant
            i <= lines.len(),
            lines.deep_view() == rl,
            rl == raw_lines(text@),
            rl.len() == lines@.len(),
            match decode_lines(rl.skip(i as int)) {
                Some(r) => decode_lines(rl) == Some(out.deep_view() + r),
                None => decode_lines(rl) is None,
            },
        decreases lines.len() - i,
    {
        proof {
            assert(rl.skip(i as int)[0] == rl[i as int]);
            assert(rl.skip(i as int).drop_first() =~= rl.skip(i + 1));
            assert(lines@[i as int].deep_view() == rl[i as int]);
        }
        let line = &lines[i];
        let ln = line.unicode_len();
        let stripped: &str = if ln > 0 && line.as_str().get_char(ln - 1) == '\r' {
            line.as_str().substring_char(0, ln - 1)
        } else {
            line.as_str()
        };
        proof {
            assert(stripped@ =~= strip_cr(rl[i as int]));
        }
        if stripped.unicode_len() > 0 {
            match decode(stripped) {
                Ok(loc) => {
                    let ghost pre = out.deep_view();
                    proof {
                        if decode_lines(rl.skip(i + 1)) is Some {
                            let rest = decode_lines(rl.skip(i + 1))->Some_0;
                            assert(pre + (seq![loc@] + rest) =~= pre.push(loc@) + rest);
                        }
                    }
                    out.push(loc);
                    proof {
                        assert(out.deep_view() =~= pre.push(loc@));
                    }
                },
                Err(_) => {
                    proof {
                        assert(decode_lines(rl.skip(i as int)) is None);
                    }
                    return Err(DatabaseCorrupt { line: i + 1 });
                },
            }
        }
        i = i + 1;
    }
    proof {
        assert(rl.skip(rl.len() as int) =~= Seq::<Seq<char>>::empty());
        assert(out.deep_view() + Seq::<LocModel>::empty() =~= out.deep_view());
    }
    Ok(out)
}

/// Renders the whole location set back to database text, in order, fully
/// replacing any prior contents.
pub fn save(locs: &Vec<Location>) -> (r: String)
    ensures
        r@ == save_spec(locs.deep_view()),
{
    let mut out = String::new();
    let mut i: usize = 0;
    proof {
        assert(locs.deep_view().take(0) =~= Seq::<LocModel>::empty());
    }
    while i < locs.len()
        invariant
            i <= locs@.len(),
            out@ == save_spec(locs.deep_view().take(i as int)),
        decreases locs@.len() - i,
    {
        let line = encode(&locs[i]);
        out.append(line.as_str());
        push_char(&mut out, '\n');
        proof {
            let dv = locs.deep_view();
            assert(dv.take(i + 1) =~= dv.take(i as int).push(dv[i as int]));
            lemma_save_snoc(dv.take(i as int), dv[i as int]);
            assert(dv[i as int] == locs@[i as int]@);
        }
        i = i + 1;
    }
    proof {
        assert(locs.deep_view().take(locs@.len() as int) =~= locs.deep_view());
    }
    out
}

/// Saving a location set and loading it back yields the very same set:
/// same paths, same counts, same order. This holds for every set whose
/// paths are line-safe and whose counts fit a machine word.
pub proof fn lemma_store_roundtrip(ls: Seq<LocModel>)
    requires
        forall|i: int| 0 <= i < ls.len() ==> wf_loc(#[trigger] ls[i]),
    ensures
        load_spec(save_spec(ls)) == Some(ls),
    decreases ls.len(),
{
    if ls.len() == 0 {
        assert(raw_lines(save_spec(ls)) =~= seq![Seq::<char>::empty()]) by {
            lemma_split_on_whole(Seq::<char>::empty(), '\n');
        }
        let rl = raw_lines(save_spec(ls));
        assert(strip_cr(rl[0]).len() == 0);
        assert(rl.drop_first() =~= Seq::<Seq<char>>::empty());
        assert(decode_lines(Seq::<Seq<char>>::empty()) == Some(Seq::<LocModel>::empty()));
        assert(load_spec(save_spec(ls)) == Some(Seq::<LocModel>::empty()));
        assert(Seq::<LocModel>::empty() =~= ls);
    } else {
        let l0 = ls[0];
        let e0 = encode_spec(l0);
        let text = save_spec(ls);
        let rest = save_spec(ls.drop_first());
        lemma_encode_no_break(l0);
        lemma_encode_decode(l0);
        assert(text =~= e0 + (seq!['\n'] + rest));
        assert(text[e0.len() as int] == '\n');
        assert forall|k: int| 0 <= k < e0.len() implies text[k] != '\n' by {
            assert(text[k] == e0[k]);
        }
        lemma_split_on_first(text, '\n', e0.len() as int);
        assert(text.take(e0.len() as int) =~= e0);
        assert(text.skip(e0.len() as int + 1) =~= rest);
        let rl = raw_lines(text);
        assert(rl == seq![e0] + raw_lines(rest));
        assert(rl[0] == e0);
        assert(rl.drop_first() =~= raw_lines(rest));
        assert(strip_cr(e0) =~= e0) by {
            lemma_encode_no_break(l0);
        }
        lemma_store_roundtrip(ls.drop_first());
        assert(seq![l0] + ls.drop_first() =~= ls);
    }
}

} // verus!
