//! Asset locations: `assets://` and `data://` URLs name files under the
//! `assets/` and `data/` directories.
use vstd::prelude::*;

verus! {

pub open spec fn asset_prefix() -> Seq<char> {
    seq!['a', 's', 's', 'e', 't', 's', ':', '/', '/']
}

pub open spec fn asset_dir() -> Seq<char> {
    seq!['a', 's', 's', 'e', 't', 's', '/']
}

pub open spec fn data_prefix() -> Seq<char> {
    seq!['d', 'a', 't', 'a', ':', '/', '/']
}

pub open spec fn data_dir() -> Seq<char> {
    seq!['d', 'a', 't', 'a', '/']
}

pub open spec fn has_prefix(s: Seq<char>, p: Seq<char>) -> bool {
    p.len() <= s.len() && s.take(p.len() as int) == p
}

/// The file path that a URL names: the scheme replaced by its directory, or
/// the URL itself when it has neither scheme.
pub open spec fn url_path(u: Seq<char>) -> Seq<char> {
    if has_prefix(u, asset_prefix()) {
        asset_dir() + u.skip(asset_prefix().len() as int)
    } else if has_prefix(u, data_prefix()) {
        data_dir() + u.skip(data_prefix().len() as int)
    } else {
        u
    }
}

/// Relies on `String::push`: appends one character.
#[verifier::external_body]
fn push_char(s: &mut String, c: char)
    ensures
        final(s)@ == old(s)@.push(c),
{
    s.push(c);
}

fn chars_of(s: &str) -> (r: Vec<char>)
    ensures
        r@ == s@,
{
    let mut r: Vec<char> = Vec::new();
    for c in it: s.chars()
        invariant
            r@ == it.seq().take(it.index() as int),
    {
        r.push(c);
    }
    r
}

fn starts_with(s: &Vec<char>, p: &Vec<char>) -> (r: bool)
    ensures
        r == has_prefix(s@, p@),
{
    if p.len() > s.len() {
        return false;
    }
    let mut i: usize = 0;
    while i < p.len()
        invariant
            p@.len() <= s@.len(),
            i <= p@.len(),
            s@.take(i as int) == p@.take(i as int),
        decreases p@.len() - i,
    {
        if s[i] != p[i] {
            assert(s@.take(p@.len() as int)[i as int] != p@[i as int]);
            return false;
        }
        assert(s@.take(i + 1) =~= s@.take(i as int).push(s@[i as int]));
        assert(p@.take(i + 1) =~= p@.take(i as int).push(p@[i as int]));
        i = i + 1;
    }
    assert(p@.take(p@.len() as int) =~= p@);
    true
}

/// Appends the characters of `cs` from `from` on.
fn append_from(s: &mut String, cs: &Vec<char>, from: usize)
    requires
        from <= cs@.len(),
    ensures
        final(s)@ == old(s)@ + cs@.skip(from as int),
{
    let mut i: usize = from;
    while i < cs.len()
        invariant
            from <= i <= cs@.len(),
            s@ == old(s)@ + cs@.subrange(from as int, i as int),
        decreases cs@.len() - i,
    {
        push_char(s, cs[i]);
        assert(cs@.subrange(from as int, i + 1) =~= cs@.subrange(from as int, i as int).push(cs@[i as int]));
        i = i + 1;
    }
    assert(cs@.subrange(from as int, i as int) =~= cs@.skip(from as int));
}

/// The file path of an asset URL.
pub fn url_to_path(url: &str) -> (r: String)
    ensures
        r@ == url_path(url@),
{
    let u = chars_of(url);
    let asset_prefix_chars: Vec<char> = vec!['a', 's', 's', 'e', 't', 's', ':', '/', '/'];
    let asset_dir_chars: Vec<char> = vec!['a', 's', 's', 'e', 't', 's', '/'];
    let data_prefix_chars: Vec<char> = vec!['d', 'a', 't', 'a', ':', '/', '/'];
    let data_dir_chars: Vec<char> = vec!['d', 'a', 't', 'a', '/'];
    assert(asset_prefix_chars@ =~= asset_prefix());
    assert(asset_dir_chars@ =~= asset_dir());
    assert(data_prefix_chars@ =~= data_prefix());
    assert(data_dir_chars@ =~= data_dir());
    let mut result = String::new();
    if starts_with(&u, &asset_prefix_chars) {
        append_from(&mut result, &asset_dir_chars, 0);
        append_from(&mut result, &u, asset_prefix_chars.len());
    } else if starts_with(&u, &data_prefix_chars) {
        append_from(&mut result, &data_dir_chars, 0);
        append_from(&mut result, &u, data_prefix_chars.len());
    } else {
        append_from(&mut result, &u, 0);
    }
    proof {
        assert(asset_dir_chars@.skip(0) =~= asset_dir_chars@);
        assert(data_dir_chars@.skip(0) =~= data_dir_chars@);
        assert(u@.skip(0) =~= u@);
    }
    result
}

} // verus!
