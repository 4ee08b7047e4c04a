use vstd::prelude::*;
use vstd::string::StrSliceExecFns;

verus! {

/// The character is a decimal digit.
pub open spec fn is_digit(c: char) -> bool {
    '0' <= c && c <= '9'
}

/// The value of a decimal digit.
pub open spec fn digit_val(c: char) -> int {
    c as int - 48
}

/// The value of a decimal digit string.
pub open spec fn dec_val(s: Seq<char>) -> int
    decreases s.len(),
{
    if s.len() == 0 {
        0
    } else {
        dec_val(s.drop_last()) * 10 + digit_val(s.last())
    }
}

/// Every character of the string is a decimal digit.
pub open spec fn all_digits(s: Seq<char>) -> bool {
    forall|i: int| 0 <= i < s.len() ==> is_digit(#[trigger] s[i])
}

/// The value of a digit string never shrinks as the string grows.
proof fn lemma_dec_val_grows(s: Seq<char>, j: int)
    requires
        all_digits(s),
        0 <= j <= s.len(),
    ensures
        0 <= dec_val(s.subrange(0, j)) <= dec_val(s),
    decreases s.len() - j,
{
    if j == s.len() {
        assert(s.subrange(0, j) =~= s);
        lemma_dec_val_nonneg(s);
    } else {
        lemma_dec_val_grows(s, j + 1);
        let p = s.subrange(0, j);
        let q = s.subrange(0, j + 1);
        assert(q.drop_last() =~= p);
        lemma_dec_val_nonneg(p);
        assert(dec_val(q) == dec_val(p) * 10 + digit_val(q.last()));
        assert(dec_val(p) <= dec_val(p) * 10) by (nonlinear_arith)
            requires dec_val(p) >= 0;
    }
}

/// The value of a digit string is nonnegative.
proof fn lemma_dec_val_nonneg(s: Seq<char>)
    requires
        all_digits(s),
    ensures
        dec_val(s) >= 0,
    decreases s.len(),
{
    if s.len() > 0 {
        assert(all_digits(s.drop_last()));
        lemma_dec_val_nonneg(s.drop_last());
        assert(dec_val(s.drop_last()) * 10 >= 0) by (nonlinear_arith)
            requires dec_val(s.drop_last()) >= 0;
    }
}

/// Where the numeric suffix of a face field starts: the first position that
/// does not hold a slash once two slashes have been passed, or nowhere.
pub open spec fn n_index_pos(s: Seq<char>, i: int, c: int) -> Option<int>
    decreases s.len() - i,
{
    if i < 0 || i >= s.len() {
        None
    } else if s[i] == '/' {
        n_index_pos(s, i + 1, c + 1)
    } else if c == 2 {
        Some(i)
    } else {
        n_index_pos(s, i + 1, c)
    }
}

/// Parse the decimal value of the character range [from, to) of v.
fn parse_range(v: &str, from: usize, to: usize) -> (r: usize)
    requires
        from <= to <= v@.len(),
        all_digits(v@.subrange(from as int, to as int)),
        dec_val(v@.subrange(from as int, to as int)) <= usize::MAX,
    ensures
        r == dec_val(v@.subrange(from as int, to as int)),
{
    let whole = Ghost(v@.subrange(from as int, to as int));
    let mut acc: usize = 0;
    let mut j: usize = from;
    while j < to
        invariant
            from <= j <= to <= v@.len(),
            whole@ == v@.subrange(from as int, to as int),
            all_digits(whole@),
            dec_val(whole@) <= usize::MAX,
            acc == dec_val(v@.subrange(from as int, j as int)),
        decreases to - j,
    {
        let ch = v.get_char(j);
        proof {
            let p = v@.subrange(from as int, j as int);
            let q = v@.subrange(from as int, j + 1);
            assert(q.drop_last() =~= p);
            assert(q.last() == v@[j as int]);
            assert(is_digit(ch)) by {
                assert(whole@[j - from] == ch);
            };
            lemma_dec_val_grows(whole@, j + 1 - from);
            assert(whole@.subrange(0, j + 1 - from) =~= q);
        }
        let d: usize = (ch as usize) - 48;
        acc = acc * 10 + d;
        j += 1;
    }
    proof {
        assert(v@.subrange(from as int, to as int) =~= whole@);
    }
    acc
}

/// The third field of a face entry such as "3/5/7": the decimal value after
/// the second slash, or 0 when the entry has no such field.
pub fn get_n_index(v: String) -> (r: usize)
    requires
        n_index_pos(v@, 0, 0) is Some ==> all_digits(
            v@.subrange(n_index_pos(v@, 0, 0)->Some_0, v@.len() as int),
        ) && dec_val(v@.subrange(n_index_pos(v@, 0, 0)->Some_0, v@.len() as int)) <= usize::MAX,
    ensures
        n_index_pos(v@, 0, 0) is None ==> r == 0,
        n_index_pos(v@, 0, 0) is Some ==> r == dec_val(
            v@.subrange(n_index_pos(v@, 0, 0)->Some_0, v@.len() as int),
        ),
{
    let s = v.as_str();
    let len = s.unicode_len();
    let mut c: u64 = 0;
    let mut i: usize = 0;
    while i < len
        invariant
            i <= len,
            len == v@.len(),
            s@ == v@,
            c <= i,
            n_index_pos(v@, 0, 0) == n_index_pos(v@, i as int, c as int),
            n_index_pos(v@, 0, 0) is Some ==> all_digits(
                v@.subrange(n_index_pos(v@, 0, 0)->Some_0, v@.len() as int),
            ) && dec_val(v@.subrange(n_index_pos(v@, 0, 0)->Some_0, v@.len() as int))
                <= usize::MAX,
        decreases len - i,
    {
        let ch = s.get_char(i);
        if ch == '/' {
            c += 1;
        } else if c == 2 {
            proof {
                assert(n_index_pos(v@, i as int, 2) == Some(i as int));
                assert(n_index_pos(v@, 0, 0) == Some(i as int));
                assert(all_digits(v@.subrange(i as int, v@.len() as int)));
                assert(s@.subrange(i as int, len as int) =~= v@.subrange(
                    i as int,
                    v@.len() as int,
                ));
            }
            return parse_range(s, i, len);
        }
        i += 1;
    }
    0
}

/// Where the first slash of a field stands, if any.
pub open spec fn first_slash(s: Seq<char>, j: int) -> Option<int>
    decreases s.len() - j,
{
    if j < 0 || j >= s.len() {
        None
    } else if s[j] == '/' {
        Some(j)
    } else {
        first_slash(s, j + 1)
    }
}

/// The vertex indices that the fields after the first would contribute:
/// for each field with a slash, the decimal value before its first slash.
pub open spec fn v_indexes(line: Seq<Seq<char>>, k: nat) -> Seq<int>
    decreases k,
{
    if k <= 1 {
        Seq::empty()
    } else {
        let p = v_indexes(line, (k - 1) as nat);
        match first_slash(line[k - 1], 0) {
            None => p,
            Some(j) => p.push(dec_val(line[k - 1].subrange(0, j))),
        }
    }
}

/// The fields of line are fit to parse: digits up to an optional slash
/// region, with values that fit the machine.
pub open spec fn v_fields_ok(line: Seq<Seq<char>>) -> bool {
    forall|k: int|
        1 <= k < line.len() ==> match first_slash(#[trigger] line[k], 0) {
            None => true,
            Some(j) => all_digits(line[k].subrange(0, j)) && dec_val(line[k].subrange(0, j))
                <= usize::MAX,
        }
}

/// The vertex index of every face field: the decimal value before the first
/// slash of each field after the first.
pub fn get_v_indexes(line: Vec<String>) -> (r: Vec<usize>)
    requires
        v_fields_ok(line@.map_values(|s: String| s@)),
    ensures
        ({
            let vals = v_indexes(line@.map_values(|s: String| s@), line@.len() as nat);
            r@.len() == vals.len() && forall|i: int| 0 <= i < vals.len() ==> r@[i] == vals[i]
        }),
{
    let ghost charline = line@.map_values(|s: String| s@);
    let mut output: Vec<usize> = Vec::new();
    let n = line.len();
    let mut i: usize = 1;
    if n < 1 {
        proof {
            assert(v_indexes(charline, n as nat) =~= Seq::<int>::empty());
        }
        return output;
    }
    while i < n
        invariant
            1 <= i <= n,
            n == line@.len(),
            charline == line@.map_values(|s: String| s@),
            v_fields_ok(charline),
            ({
                let vals = v_indexes(charline, i as nat);
                output@.len() == vals.len() && forall|q: int|
                    0 <= q < vals.len() ==> output@[q] == vals[q]
            }),
        decreases n - i,
    {
        let s = line[i].as_str();
        let len = s.unicode_len();
        proof {
            assert(charline[i as int] == s@);
        }
        let mut j: usize = 0;
        let mut found = false;
        while j < len && !found
            invariant
                j <= len,
                len == s@.len(),
                !found ==> first_slash(s@, 0) == first_slash(s@, j as int),
                found ==> first_slash(s@, 0) == Some(j as int) && j < len,
            decreases len - j + (if found { 0int } else { 1int }),
        {
            let ch = s.get_char(j);
            if ch == '/' {
                found = true;
            } else {
                j += 1;
            }
        }
        if found {
            proof {
                assert(charline[i as int] == s@);
            }
            let val = parse_range(s, 0, j);
            output.push(val);
        }
        i += 1;
    }
    output
}

} // verus!
