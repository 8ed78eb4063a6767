use vstd::prelude::*;
use vstd::string::StrSliceExecFns;

verus! {

/// Relies on `FromIterator<&char>` for `String`: the string of those characters, in order.
#[verifier::external_body]
pub(crate) fn string_from_chars(v: &Vec<char>) -> (r: String)
    ensures
        r@ == v@,
{
    v.iter().collect()
}

/// The characters of `s`, in order.
pub(crate) fn chars_of(s: &str) -> (r: Vec<char>)
    ensures
        r@ == s@,
{
    let n = s.unicode_len();
    let mut r: Vec<char> = Vec::new();
    let mut i: usize = 0;
    while i < n
        invariant
            n == s@.len(),
            i <= n,
            r@ == s@.take(i as int),
        decreases n - i,
    {
        r.push(s.get_char(i));
        proof {
            assert(s@.take(i as int + 1) =~= s@.take(i as int).push(s@[i as int]));
        }
        i += 1;
    }
    proof {
        assert(s@.take(n as int) =~= s@);
    }
    r
}

/// `s` cut at every `sep`, as `str::split` with a character pattern cuts it:
/// always at least one piece, an empty one between two neighbouring separators.
pub open spec fn split_on(s: Seq<char>, sep: char) -> Seq<Seq<char>>
    decreases s.len(),
{
    if s.len() == 0 {
        seq![Seq::empty()]
    } else {
        let front = split_on(s.drop_last(), sep);
        if s.last() == sep {
            front.push(Seq::empty())
        } else {
            front.update(front.len() - 1, front.last().push(s.last()))
        }
    }
}

pub open spec fn is_punct(c: char) -> bool {
    c == '.' || c == ',' || c == '?' || c == '!' || c == '-'
}

pub open spec fn is_digit(c: char) -> bool {
    '0' <= c && c <= '9'
}

/// `s` without the characters `. , ? ! -`.
pub open spec fn without_punct(s: Seq<char>) -> Seq<char>
    decreases s.len(),
{
    if s.len() == 0 {
        s
    } else if is_punct(s.last()) {
        without_punct(s.drop_last())
    } else {
        without_punct(s.drop_last()).push(s.last())
    }
}

/// `s` without the decimal digits.
pub open spec fn without_digits(s: Seq<char>) -> Seq<char>
    decreases s.len(),
{
    if s.len() == 0 {
        s
    } else if is_digit(s.last()) {
        without_digits(s.drop_last())
    } else {
        without_digits(s.drop_last()).push(s.last())
    }
}

/// The words that carry no meaning for a summary.
pub open spec fn is_stop_word(w: Seq<char>) -> bool {
    ||| w == seq!['t', 'h', 'e']
    ||| w == seq!['a']
    ||| w == seq!['a', 'n']
    ||| w == seq!['s', 'o', 'm', 'e']
    ||| w == seq!['a', 'n', 'd']
    ||| w == seq!['i', 's']
    ||| w == seq!['i', 'n']
    ||| w == seq!['a', 's']
    ||| w == seq!['o', 'f']
    ||| w == seq!['t', 'o']
    ||| w == seq!['b', 'u', 't']
    ||| w == seq!['g', 'a', 'm', 'e']
    ||| w == seq!['g', 'a', 'm', 'e', 's']
    ||| w == seq!['t', 'h', 'r', 'o', 'u', 'g', 'h']
    ||| w == seq!['b', 'w', 'o', 'r', 'd']
    ||| w == seq!['o', 'n']
}

/// The words of `ws` that are not stop words, each followed by one space.
pub open spec fn join_kept(ws: Seq<Seq<char>>) -> Seq<char>
    decreases ws.len(),
{
    if ws.len() == 0 {
        Seq::empty()
    } else if is_stop_word(ws.last()) {
        join_kept(ws.drop_last())
    } else {
        join_kept(ws.drop_last()) + ws.last().push(' ')
    }
}

/// `s` cut into words at each single space, stop words left out, each
/// remaining word followed by a space.
pub open spec fn without_stop_words(s: Seq<char>) -> Seq<char> {
    join_kept(split_on(s, ' '))
}

/// What `filter` leaves of a summary.
pub open spec fn filtered(s: Seq<char>) -> Seq<char> {
    without_punct(without_digits(without_stop_words(s)))
}

fn same_chars<const N: usize>(w: &Vec<char>, lit: &[char; N]) -> (r: bool)
    ensures
        r == (w@ == lit@),
{
    if w.len() != lit.len() {
        return false;
    }
    let mut i: usize = 0;
    while i < w.len()
        invariant
            w@.len() == lit@.len(),
            i <= w@.len(),
            forall|j: int| 0 <= j < i ==> w@[j] == lit@[j],
        decreases w@.len() - i,
    {
        if w[i] != lit[i] {
            return false;
        }
        i += 1;
    }
    proof {
        assert(w@ =~= lit@);
    }
    true
}

fn stop_word(w: &Vec<char>) -> (r: bool)
    ensures
        r == is_stop_word(w@),
{
    broadcast use vstd::array::lemma_array_index;

    let lit = ['t', 'h', 'e'];
    proof {
        assert(lit@ =~= seq!['t', 'h', 'e']);
    }
    if same_chars(w, &lit) {
        return true;
    }
    let lit = ['a'];
    proof {
        assert(lit@ =~= seq!['a']);
    }
    if same_chars(w, &lit) {
        return true;
    }
    let lit = ['a', 'n'];
    proof {
        assert(lit@ =~= seq!['a', 'n']);
    }
    if same_chars(w, &lit) {
        return true;
    }
    let lit = ['s', 'o', 'm', 'e'];
    proof {
        assert(lit@ =~= seq!['s', 'o', 'm', 'e']);
    }
    if same_chars(w, &lit) {
        return true;
    }
    let lit = ['a', 'n', 'd'];
    proof {
        assert(lit@ =~= seq!['a', 'n', 'd']);
    }
    if same_chars(w, &lit) {
        return true;
    }
    let lit = ['i', 's'];
    proof {
        assert(lit@ =~= seq!['i', 's']);
    }
    if same_chars(w, &lit) {
        return true;
    }
    let lit = ['i', 'n'];
    proof {
        assert(lit@ =~= seq!['i', 'n']);
    }
    if same_chars(w, &lit) {
        return true;
    }
    let lit = ['a', 's'];
    proof {
        assert(lit@ =~= seq!['a', 's']);
    }
    if same_chars(w, &lit) {
        return true;
    }
    let lit = ['o', 'f'];
    proof {
        assert(lit@ =~= seq!['o', 'f']);
    }
    if same_chars(w, &lit) {
        return true;
    }
    let lit = ['t', 'o'];
    proof {
        assert(lit@ =~= seq!['t', 'o']);
    }
    if same_chars(w, &lit) {
        return true;
    }
    let lit = ['b', 'u', 't'];
    proof {
        assert(lit@ =~= seq!['b', 'u', 't']);
    }
    if same_chars(w, &lit) {
        return true;
    }
    let lit = ['g', 'a', 'm', 'e'];
    proof {
        assert(lit@ =~= seq!['g', 'a', 'm', 'e']);
    }
    if same_chars(w, &lit) {
        return true;
    }
    let lit = ['g', 'a', 'm', 'e', 's'];
    proof {
        assert(lit@ =~= seq!['g', 'a', 'm', 'e', 's']);
    }
    if same_chars(w, &lit) {
        return true;
    }
    let lit = ['t', 'h', 'r', 'o', 'u', 'g', 'h'];
    proof {
        assert(lit@ =~= seq!['t', 'h', 'r', 'o', 'u', 'g', 'h']);
    }
    if same_chars(w, &lit) {
        return true;
    }
    let lit = ['b', 'w', 'o', 'r', 'd'];
    proof {
        assert(lit@ =~= seq!['b', 'w', 'o', 'r', 'd']);
    }
    if same_chars(w, &lit) {
        return true;
    }
    let lit = ['o', 'n'];
    proof {
        assert(lit@ =~= seq!['o', 'n']);
    }
    if same_chars(w, &lit) {
        return true;
    }
    false
}

/// Removes the characters `. , ? ! -`.
pub fn remove_punct(summary: String) -> (r: String)
    ensures
        r@ == without_punct(summary@),
{
    let chars = chars_of(summary.as_str());
    let mut kept: Vec<char> = Vec::new();
    let mut i: usize = 0;
    while i < chars.len()
        invariant
            chars@ == summary@,
            i <= chars@.len(),
            kept@ == without_punct(chars@.take(i as int)),
        decreases chars@.len() - i,
    {
        let c = chars[i];
        if c != '.' && c != ',' && c != '?' && c != '!' && c != '-' {
            kept.push(c);
        }
        proof {
            assert(chars@.take(i as int + 1).drop_last() =~= chars@.take(i as int));
        }
        i += 1;
    }
    proof {
        assert(chars@.take(i as int) =~= chars@);
    }
    string_from_chars(&kept)
}

/// Removes the decimal digits.
pub fn remove_num(summary: String) -> (r: String)
    ensures
        r@ == without_digits(summary@),
{
    let chars = chars_of(summary.as_str());
    let mut kept: Vec<char> = Vec::new();
    let mut i: usize = 0;
    while i < chars.len()
        invariant
            chars@ == summary@,
            i <= chars@.len(),
            kept@ == without_digits(chars@.take(i as int)),
        decreases chars@.len() - i,
    {
        let c = chars[i];
        if !('0' <= c && c <= '9') {
            kept.push(c);
        }
        proof {
            assert(chars@.take(i as int + 1).drop_last() =~= chars@.take(i as int));
        }
        i += 1;
    }
    proof {
        assert(chars@.take(i as int) =~= chars@);
    }
    string_from_chars(&kept)
}

/// Removes the stop words, cutting at single spaces; every word kept is
/// followed by a space.
pub fn remove_article(summary: String) -> (r: String)
    ensures
        r@ == without_stop_words(summary@),
{
    let chars = chars_of(summary.as_str());
    let mut out: Vec<char> = Vec::new();
    let mut word: Vec<char> = Vec::new();
    let ghost mut done: Seq<Seq<char>> = Seq::empty();
    let mut i: usize = 0;
    while i < chars.len()
        invariant
            chars@ == summary@,
            i <= chars@.len(),
            split_on(chars@.take(i as int), ' ') == done.push(word@),
            out@ == join_kept(done),
        decreases chars@.len() - i,
    {
        let c = chars[i];
        proof {
            assert(chars@.take(i as int + 1).drop_last() =~= chars@.take(i as int));
            assert(done.push(word@).drop_last() =~= done);
        }
        if c == ' ' {
            if !stop_word(&word) {
                let mut w = word.clone();
                w.push(' ');
                out.append(&mut w);
            }
            proof {
                assert(done.push(word@).last() == word@);
                done = done.push(word@);
            }
            word = Vec::new();
        } else {
            word.push(c);
            proof {
                assert(done.push(word@) =~= with_last_word(done, word@));
            }
        }
        i += 1;
    }
    proof {
        assert(chars@.take(i as int) =~= chars@);
        assert(done.push(word@).drop_last() =~= done);
    }
    if !stop_word(&word) {
        let mut w = word.clone();
        w.push(' ');
        out.append(&mut w);
    }
    string_from_chars(&out)
}

/// `done` followed by `word`, written as `word` less its last character
/// grown by that character.
spec fn with_last_word(done: Seq<Seq<char>>, word: Seq<char>) -> Seq<Seq<char>> {
    done.push(word.drop_last()).update(done.len() as int, word)
}

/// Cleans a summary: stop words out, then digits, then punctuation.
pub fn filter(summary: String) -> (r: String)
    ensures
        r@ == filtered(summary@),
{
    remove_punct(remove_num(remove_article(summary)))
}

} // verus!
