use vstd::prelude::*;

verus! {

/// One remembered directory: an absolute path and how many times it has
/// been the resolved target.
#[derive(Debug)]
pub struct Location {
    pub path: String,
    pub count: usize,
}

/// The mathematical value of a [`Location`].
pub struct LocModel {
    pub path: Seq<char>,
    pub count: nat,
}

impl View for Location {
    type V = LocModel;

    open spec fn view(&self) -> LocModel {
        LocModel { path: self.path@, count: self.count as nat }
    }
}

impl DeepView for Location {
    type V = LocModel;

    open spec fn deep_view(&self) -> LocModel {
        self@
    }
}

impl Clone for Location {
    fn clone(&self) -> (r: Self)
        ensures
            r@ == self@,
    {
        Location { path: self.path.clone(), count: self.count }
    }
}

/// A line that does not have the shape `"<path>" <count>`.
#[derive(Clone, Copy, Debug)]
pub struct MalformedRecord;

/// A path can be stored on one line only if it contains neither a double
/// quote (the field delimiter) nor a line break.
pub open spec fn wf_path(p: Seq<char>) -> bool {
    forall|i: int| 0 <= i < p.len() ==> p[i] != '"' && p[i] != '\n' && p[i] != '\r'
}

/// A storable record: a line-safe path and a count a machine word can hold.
pub open spec fn wf_loc(l: LocModel) -> bool {
    wf_path(l.path) && l.count <= usize::MAX as nat
}

pub open spec fn is_digit(c: char) -> bool {
    '0' <= c && c <= '9'
}

pub open spec fn digit_val(c: char) -> nat {
    ((c as u8) - 48) as nat
}

pub open spec fn digit_char(d: nat) -> char {
    (((d % 10) + 48) as u8) as char
}

pub open spec fn all_digits(s: Seq<char>) -> bool {
    forall|i: int| 0 <= i < s.len() ==> is_digit(#[trigger] s[i])
}

/// The usual base-10 rendering of `n`, most significant digit first.
pub open spec fn dec_digits(n: nat) -> Seq<char>
    decreases n,
{
    if n < 10 {
        seq![digit_char(n)]
    } else {
        dec_digits(n / 10).push(digit_char(n % 10))
    }
}

/// The numeric value of a digit string, leading zeros allowed.
pub open spec fn digits_val(s: Seq<char>) -> nat
    decreases s.len(),
{
    if s.len() == 0 {
        0
    } else {
        digits_val(s.drop_last()) * 10 + digit_val(s.last())
    }
}

/// `dec_digits` yields at least one character, all of them digits.
pub proof fn lemma_dec_digits_shape(n: nat)
    ensures
        dec_digits(n).len() >= 1,
        all_digits(dec_digits(n)),
    decreases n,
{
    if n >= 10 {
        lemma_dec_digits_shape(n / 10);
        assert forall|i: int| 0 <= i < dec_digits(n).len() implies is_digit(
            #[trigger] dec_digits(n)[i],
        ) by {
            if i < dec_digits(n / 10).len() {
                assert(dec_digits(n)[i] == dec_digits(n / 10)[i]);
            }
        }
    }
}

/// Reading back the base-10 rendering of `n` gives `n`.
pub proof fn lemma_digits_roundtrip(n: nat)
    ensures
        digits_val(dec_digits(n)) == n,
    decreases n,
{
    if n < 10 {
        assert(dec_digits(n).drop_last() =~= Seq::<char>::empty());
        assert(dec_digits(n).last() == digit_char(n));
        assert(digits_val(Seq::<char>::empty()) == 0);
        assert(digits_val(dec_digits(n)) == digits_val(Seq::<char>::empty()) * 10
            + digit_val(digit_char(n)));
        assert(digit_val(digit_char(n)) == n);
    } else {
        lemma_digits_roundtrip(n / 10);
        let front = dec_digits(n / 10);
        assert(front.push(digit_char(n % 10)).drop_last() =~= front);
        assert(front.push(digit_char(n % 10)).last() == digit_char(n % 10));
        assert(digits_val(dec_digits(n)) == (n / 10) * 10 + n % 10);
    }
}

} // verus!

verus! {

/// The single line that stores a location: the path in double quotes, one
/// space, then the count in decimal.
pub open spec fn encode_spec(l: LocModel) -> Seq<char> {
    seq!['"'] + l.path + seq!['"', ' '] + dec_digits(l.count)
}

/// The location a line denotes, if it is well formed: an opening quote, a
/// quote-free path, the closing quote, a single space, and a decimal count
/// that fits in a machine word. Leading zeros are accepted.
pub open spec fn decode_spec(s: Seq<char>) -> Option<LocModel> {
    if s.len() == 0 || s[0] != '"' {
        None
    } else {
        match crate::text::find_char(s, '"', 1) {
            None => None,
            Some(j) => if j + 1 < s.len() && s[j + 1] == ' ' {
                let ds = s.subrange(j + 2, s.len() as int);
                if ds.len() > 0 && all_digits(ds) && digits_val(ds) <= usize::MAX as nat {
                    Some(LocModel { path: s.subrange(1, j), count: digits_val(ds) })
                } else {
                    None
                }
            } else {
                None
            },
        }
    }
}

/// A digit-string prefix never exceeds the value of the whole string.
pub proof fn lemma_digits_val_prefix(s: Seq<char>, i: int)
    requires
        0 <= i <= s.len(),
    ensures
        digits_val(s.take(i)) <= digits_val(s),
    decreases s.len() - i,
{
    if i == s.len() {
        assert(s.take(i) =~= s);
    } else {
        lemma_digits_val_prefix(s.drop_last(), i);
        assert(s.drop_last().take(i) =~= s.take(i));
    }
}

/// Parses one stored line.
pub fn decode(line: &str) -> (r: Result<Location, MalformedRecord>)
    ensures
        match r {
            Ok(l) => decode_spec(line@) == Some(l@),
            Err(_) => decode_spec(line@) is None,
        },
{
    let n = line.unicode_len();
    if n == 0 {
        return Err(MalformedRecord);
    }
    if line.get_char(0) != '"' {
        return Err(MalformedRecord);
    }
    let mut j: usize = 1;
    while j < n && line.get_char(j) != '"'
        invariant
            1 <= j <= n == line@.len(),
            forall|k: int| 1 <= k < j ==> line@[k] != '"',
        decreases n - j,
    {
        j = j + 1;
    }
    if j == n {
        proof {
            crate::text::lemma_find_char(line@, '"', 1);
        }
        return Err(MalformedRecord);
    }
    proof {
        crate::text::lemma_find_char_at(line@, '"', 1, j as int);
    }
    if j + 1 >= n {
        return Err(MalformedRecord);
    }
    if line.get_char(j + 1) != ' ' {
        return Err(MalformedRecord);
    }
    if j + 2 >= n {
        // no digits after the delimiter
        assert(line@.subrange(j + 2, n as int).len() == 0);
        return Err(MalformedRecord);
    }
    let ghost ds = line@.subrange(j + 2, n as int);
    let mut val: usize = 0;
    let mut k: usize = j + 2;
    proof {
        assert(ds.take(0) =~= line@.subrange(j + 2, j + 2));
    }
    while k < n
        invariant
            1 <= j,
            j + 2 <= k <= n == line@.len(),
            line@[0] == '"',
            crate::text::find_char(line@, '"', 1) == Some(j as int),
            line@[j + 1] == ' ',
            ds == line@.subrange(j + 2, n as int),
            forall|t: int| j + 2 <= t < k ==> is_digit(#[trigger] line@[t]),
            val == digits_val(ds.take(k - j - 2)),
        decreases n - k,
    {
        let c = line.get_char(k);
        if !('0' <= c && c <= '9') {
            assert(!is_digit(ds[k - j - 2]));
            return Err(MalformedRecord);
        }
        let d = (c as u8) - 48;
        proof {
            assert(ds.take(k - j - 2 + 1).drop_last() =~= ds.take(k - j - 2));
            assert(ds.take(k - j - 2 + 1).last() == c);
        }
        let next = match val.checked_mul(10) {
            Some(v) => v.checked_add(d as usize),
            None => None,
        };
        match next {
            Some(v) => {
                val = v;
            },
            None => {
                // the count does not fit in a machine word
                proof {
                    assert(digits_val(ds.take(k - j - 2 + 1)) > usize::MAX as nat);
                    lemma_digits_val_prefix(ds, k - j - 2 + 1);
                }
                return Err(MalformedRecord);
            },
        }
        k = k + 1;
    }
    proof {
        assert(ds.take(n - j - 2) =~= ds);
        assert(all_digits(ds));
    }
    let path = line.substring_char(1, j).to_owned();
    Ok(Location { path, count: val })
}

/// Renders one location as its stored line.
pub fn encode(l: &Location) -> (r: String)
    ensures
        r@ == encode_spec(l@),
{
    let mut out = String::new();
    crate::text::push_char(&mut out, '"');
    out.append(l.path.as_str());
    crate::text::push_char(&mut out, '"');
    crate::text::push_char(&mut out, ' ');
    let ghost c0 = l.count as nat;
    let ghost head = out@;
    let mut digs: Vec<char> = Vec::new();
    if l.count == 0 {
        digs.push('0');
        proof {
            assert(dec_digits(0) =~= seq!['0']) by {
                assert(digit_char(0) == '0');
            }
            assert(digs@.reverse() =~= dec_digits(c0));
        }
    } else {
        let mut m = l.count;
        proof {
            assert(dec_digits(m as nat) + digs@.reverse() =~= dec_digits(c0));
        }
        while m > 0
            invariant
                m > 0 ==> dec_digits(c0) == dec_digits(m as nat) + digs@.reverse(),
                m == 0 ==> dec_digits(c0) == digs@.reverse(),
            decreases m,
    {
            let d = m % 10;
            let dc = ((d as u8) + 48) as char;
            proof {
                assert(dc == digit_char((m as nat) % 10));
            }
            let ghost pre = digs@;
            digs.push(dc);
            m = m / 10;
            proof {
                assert(digs@.reverse() =~= seq![dc] + pre.reverse());
                if m > 0 {
                    assert(dec_digits(c0) =~= dec_digits(m as nat) + digs@.reverse());
                } else {
                    assert(dec_digits(c0) =~= digs@.reverse());
                }
            }
        }
    }
    // the digits were collected least significant first; emit them in reverse
    let mut i: usize = digs.len();
    while i > 0
        invariant
            i <= digs@.len(),
            out@ == head + digs@.skip(i as int).reverse(),
        decreases i,
    {
        i = i - 1;
        let ghost pre = out@;
        crate::text::push_char(&mut out, digs[i]);
        proof {
            assert(digs@.skip(i as int).reverse() =~= digs@.skip(i + 1).reverse().push(
                digs@[i as int],
            ));
            assert(out@ =~= head + digs@.skip(i as int).reverse());
        }
    }
    proof {
        assert(digs@.skip(0) =~= digs@);
        assert(out@ =~= encode_spec(l@));
    }
    out
}

} // verus!

verus! {

/// An encoded line never contains a line break, so line-splitting can
/// recover it intact.
pub proof fn lemma_encode_no_break(l: LocModel)
    requires
        wf_loc(l),
    ensures
        encode_spec(l).len() > 0,
        forall|i: int| 0 <= i < encode_spec(l).len() ==> encode_spec(l)[i] != '\n'
            && encode_spec(l)[i] != '\r',
{
    let e = encode_spec(l);
    lemma_dec_digits_shape(l.count);
    let p = l.path.len() as int;
    assert forall|i: int| 0 <= i < e.len() implies e[i] != '\n' && e[i] != '\r' by {
        if 1 <= i < 1 + p {
            assert(e[i] == l.path[i - 1]);
        } else if i >= 3 + p {
            assert(e[i] == dec_digits(l.count)[i - 3 - p]);
            assert(is_digit(dec_digits(l.count)[i - 3 - p]));
        }
    }
}

/// Decoding is a left inverse of encoding: every storable location comes
/// back from its own line, path, count and all.
pub proof fn lemma_encode_decode(l: LocModel)
    requires
        wf_loc(l),
    ensures
        decode_spec(encode_spec(l)) == Some(l),
{
    let e = encode_spec(l);
    let p = l.path.len() as int;
    lemma_dec_digits_shape(l.count);
    lemma_digits_roundtrip(l.count);
    assert(e[0] == '"');
    assert(e[p + 1] == '"');
    assert forall|k: int| 1 <= k < p + 1 implies e[k] != '"' by {
        assert(e[k] == l.path[k - 1]);
    }
    crate::text::lemma_find_char_at(e, '"', 1, p + 1);
    assert(e[p + 2] == ' ');
    let ds = e.subrange(p + 3, e.len() as int);
    assert(ds =~= dec_digits(l.count));
    assert(e.subrange(1, p + 1) =~= l.path);
}

} // verus!
