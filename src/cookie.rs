use crate::block::{
    decrypt_ecb_text, ecb_encrypt_spec, encrypt_ecb_text, generate_random_aes_key, pkcs7_pad_spec,
    pkcs7_unpad_spec, ecb_decrypt_spec,
};
use crate::error::CryptoError;
use std::collections::HashMap;
use vstd::prelude::*;
use vstd::string::StringSliceAdditionalSpecFns;
use vstd::utf8::{decode_utf8, encode_utf8, valid_utf8};

verus! {

/// Relies on `str::chars` collected into a `Vec`: the characters of `s` in order.
#[verifier::external_body]
fn chars_of(s: &str) -> (r: Vec<char>)
    ensures
        r@ == s@,
{
    s.chars().collect()
}

/// Relies on `String: FromIterator<char>`: the string of exactly these characters.
#[verifier::external_body]
fn string_of(chars: &Vec<char>) -> (r: String)
    ensures
        r@ == chars@,
{
    chars.iter().collect()
}

/// Relies on `String::from_utf8`: it succeeds exactly on valid UTF-8 and then
/// holds the characters that the bytes encode.
#[verifier::external_body]
fn string_from_utf8(bytes: Vec<u8>) -> (r: Option<String>)
    ensures
        match r {
            Some(s) => valid_utf8(bytes@) && s@ == decode_utf8(bytes@),
            None => !valid_utf8(bytes@),
        },
{
    String::from_utf8(bytes).ok()
}

/// A keyed codec that issues ECB-encrypted profile cookies.
pub struct Cookie {
    pub key: Vec<u8>,
}

/// A user profile as carried in a cookie.
pub struct Profile {
    pub email: String,
    pub uid: usize,
    pub role: String,
}

impl View for Profile {
    type V = (Seq<char>, int, Seq<char>);

    open spec fn view(&self) -> (Seq<char>, int, Seq<char>) {
        (self.email@, self.uid as int, self.role@)
    }
}

/// `email` with every `=` and `&` removed.
pub open spec fn sanitize(email: Seq<char>) -> Seq<char> {
    email.filter(|c: char| c != '=' && c != '&')
}

/// The role that every issued profile carries.
pub open spec fn user_role() -> Seq<char> {
    seq!['u', 's', 'e', 'r']
}

/// The uid that every issued profile carries.
pub open spec fn user_uid() -> int {
    10
}

/// The canonical encoding of an issued profile: `email=<e>&uid=10&role=user`.
pub open spec fn profile_text(email: Seq<char>) -> Seq<char> {
    seq!['e', 'm', 'a', 'i', 'l', '='] + email + seq!['&', 'u', 'i', 'd', '=', '1', '0', '&', 'r', 'o', 'l', 'e', '='] + user_role()
}

/// The ciphertext issued for `email` under `key`.
pub open spec fn profile_ciphertext(key: Seq<u8>, email: Seq<char>) -> Seq<u8> {
    ecb_encrypt_spec(key, pkcs7_pad_spec(encode_utf8(profile_text(sanitize(email)))))
}

/// Appends the characters of `s` to `out`.
fn push_chars(out: &mut Vec<char>, s: &str)
    ensures
        final(out)@ == old(out)@ + s@,
{
    let cs = chars_of(s);
    let mut i: usize = 0;
    while i < cs.len()
        invariant
            cs@ == s@,
            i <= cs@.len(),
            out@ == old(out)@ + cs@.take(i as int),
        decreases cs@.len() - i,
    {
        out.push(cs[i]);
        i = i + 1;
        assert(out@ =~= old(out)@ + cs@.take(i as int));
    }
    assert(cs@.take(cs@.len() as int) =~= cs@);
}


/// `t` cut at every `&`: one piece more than there are `&` characters.
pub open spec fn split_fields(t: Seq<char>) -> Seq<Seq<char>>
    decreases t.len(),
{
    if t.len() == 0 {
        seq![Seq::empty()]
    } else {
        let p = split_fields(t.drop_last());
        if t.last() == '&' {
            p.push(Seq::empty())
        } else {
            p.update(p.len() - 1, p.last().push(t.last()))
        }
    }
}

/// The value that a `key=value` piece gives the field `name`: the key runs up to
/// the first `=` (the whole piece when there is none) and the value is the rest.
pub open spec fn field_value(piece: Seq<char>, name: Seq<char>) -> Option<Seq<char>> {
    if piece == name {
        Some(Seq::empty())
    } else if piece.len() > name.len() && piece.take(name.len() as int) == name && piece[name.len() as int] == '=' {
        Some(piece.skip(name.len() as int + 1))
    } else {
        None
    }
}

/// The values given to the field `name`, in order of appearance.
pub open spec fn field_values(pieces: Seq<Seq<char>>, name: Seq<char>) -> Seq<Seq<char>>
    decreases pieces.len(),
{
    if pieces.len() == 0 {
        Seq::empty()
    } else {
        let rest = field_values(pieces.drop_last(), name);
        match field_value(pieces.last(), name) {
            Some(v) => rest.push(v),
            None => rest,
        }
    }
}

/// An ASCII decimal digit.
pub open spec fn is_digit(c: char) -> bool {
    '0' <= c <= '9'
}

/// The number that a string of decimal digits denotes.
pub open spec fn decimal_value(s: Seq<char>) -> int
    decreases s.len(),
{
    if s.len() == 0 {
        0
    } else {
        decimal_value(s.drop_last()) * 10 + (s.last() as int - '0' as int)
    }
}

/// A uid: one or more decimal digits whose value fits in a `usize`.
pub open spec fn uid_value(s: Seq<char>) -> Option<int> {
    if s.len() > 0 && (forall|i: int| 0 <= i < s.len() ==> is_digit(#[trigger] s[i])) && decimal_value(s) <= usize::MAX {
        Some(decimal_value(s))
    } else {
        None
    }
}

/// The field names of a profile.
pub open spec fn email_name() -> Seq<char> {
    seq!['e', 'm', 'a', 'i', 'l']
}

pub open spec fn uid_name() -> Seq<char> {
    seq!['u', 'i', 'd']
}

pub open spec fn role_name() -> Seq<char> {
    seq!['r', 'o', 'l', 'e']
}

/// The profile that a cookie's text denotes: each of `email`, `uid` and `role`
/// given exactly once, in any order, other keys ignored, and a valid uid.
pub open spec fn parse_profile_spec(t: Seq<char>) -> Option<(Seq<char>, int, Seq<char>)> {
    let pieces = split_fields(t);
    let e = field_values(pieces, email_name());
    let u = field_values(pieces, uid_name());
    let r = field_values(pieces, role_name());
    if e.len() == 1 && u.len() == 1 && r.len() == 1 && uid_value(u[0]) is Some {
        Some((e[0], uid_value(u[0])->0, r[0]))
    } else {
        None
    }
}

/// What decrypting `cipher` under `key` and reading it as a profile gives.
pub open spec fn decrypted_profile_spec(key: Seq<u8>, cipher: Seq<u8>) -> Result<(Seq<char>, int, Seq<char>), CryptoError> {
    if cipher.len() % 16 != 0 {
        Err(CryptoError::DecodeError)
    } else {
        match pkcs7_unpad_spec(ecb_decrypt_spec(key, cipher)) {
            None => Err(CryptoError::PaddingError),
            Some(b) => if !valid_utf8(b) {
                Err(CryptoError::DecodeError)
            } else {
                match parse_profile_spec(decode_utf8(b)) {
                    Some(p) => Ok(p),
                    None => Err(CryptoError::DecodeError),
                }
            },
        }
    }
}

proof fn lemma_split_fields_nonempty(t: Seq<char>)
    ensures
        split_fields(t).len() >= 1,
    decreases t.len(),
{
    if t.len() > 0 {
        lemma_split_fields_nonempty(t.drop_last());
    }
}

/// Characters without `&` extend the last piece.
proof fn lemma_split_fields_append(a: Seq<char>, b: Seq<char>)
    requires
        forall|i: int| 0 <= i < b.len() ==> #[trigger] b[i] != '&',
    ensures
        split_fields(a + b) == split_fields(a).update(split_fields(a).len() - 1, split_fields(a).last() + b),
    decreases b.len(),
{
    lemma_split_fields_nonempty(a);
    if b.len() == 0 {
        assert(a + b =~= a);
        assert(split_fields(a).last() + b =~= split_fields(a).last());
        assert(split_fields(a).update(split_fields(a).len() - 1, split_fields(a).last()) =~= split_fields(a));
    } else {
        let b1 = b.drop_last();
        lemma_split_fields_append(a, b1);
        assert((a + b).drop_last() =~= a + b1);
        assert((a + b).last() == b.last());
        assert(split_fields(a).last() + b =~= (split_fields(a).last() + b1).push(b.last()));
        assert(split_fields(a + b) =~= split_fields(a).update(split_fields(a).len() - 1, split_fields(a).last() + b));
    }
}

proof fn lemma_decimal_prefix(s: Seq<char>, i: int)
    requires
        0 <= i <= s.len(),
        forall|k: int| 0 <= k < s.len() ==> is_digit(#[trigger] s[k]),
    ensures
        0 <= decimal_value(s.take(i)) <= decimal_value(s),
    decreases s.len(),
{
    if i < s.len() {
        let d = s.drop_last();
        assert(d.take(i) =~= s.take(i));
        lemma_decimal_prefix(d, i);
        assert(d.take(d.len() as int) =~= d);
        lemma_decimal_prefix(d, d.len() as int);
    } else {
        assert(s.take(i) =~= s);
        if s.len() > 0 {
            let d = s.drop_last();
            lemma_decimal_prefix(d, d.len() as int);
            assert(d.take(d.len() as int) =~= d);
        }
    }
}

/// The character sequences held by a sequence of character vectors.
pub open spec fn texts(v: Seq<Vec<char>>) -> Seq<Seq<char>> {
    v.map_values(|x: Vec<char>| x@)
}

/// Cuts `t` at every `&`.
fn split_on_amp(t: &Vec<char>) -> (r: Vec<Vec<char>>)
    ensures
        texts(r@) == split_fields(t@),
{
    let mut done: Vec<Vec<char>> = Vec::new();
    let mut cur: Vec<char> = Vec::new();
    let mut i: usize = 0;
    assert(t@.take(0) =~= Seq::<char>::empty());
    assert(texts(done@).push(cur@) =~= split_fields(t@.take(0)));
    while i < t.len()
        invariant
            i <= t@.len(),
            texts(done@).push(cur@) == split_fields(t@.take(i as int)),
        decreases t@.len() - i,
    {
        let c = t[i];
        let ghost before = texts(done@).push(cur@);
        assert(t@.take(i + 1).drop_last() =~= t@.take(i as int));
        assert(t@.take(i + 1).last() == c);
        if c == '&' {
            let ghost dv = texts(done@);
            done.push(cur);
            cur = Vec::new();
            assert(texts(done@) =~= dv.push(before.last()));
            assert(texts(done@).push(cur@) =~= before.push(Seq::empty()));
        } else {
            cur.push(c);
            assert(texts(done@).push(cur@) =~= before.update(before.len() - 1, before.last().push(c)));
        }
        i = i + 1;
    }
    assert(t@.take(t@.len() as int) =~= t@);
    let ghost fin = texts(done@).push(cur@);
    done.push(cur);
    assert(texts(done@) =~= fin);
    done
}

/// Whether the first `name.len()` characters of `piece` are `name`.
fn starts_with(piece: &Vec<char>, name: &Vec<char>) -> (r: bool)
    requires
        name@.len() <= piece@.len(),
    ensures
        r == (piece@.take(name@.len() as int) == name@),
{
    let mut i: usize = 0;
    while i < name.len()
        invariant
            name@.len() <= piece@.len(),
            i <= name@.len(),
            forall|k: int| 0 <= k < i ==> piece@[k] == name@[k],
        decreases name@.len() - i,
    {
        if piece[i] != name[i] {
            assert(piece@.take(name@.len() as int)[i as int] != name@[i as int]);
            return false;
        }
        i = i + 1;
    }
    assert(piece@.take(name@.len() as int) =~= name@);
    true
}

/// The value that `piece` gives the field `name`, if any.
fn value_for(piece: &Vec<char>, name: &Vec<char>) -> (r: Option<Vec<char>>)
    ensures
        match field_value(piece@, name@) {
            Some(v) => r matches Some(x) && x@ == v,
            None => r is None,
        },
{
    let n = name.len();
    if piece.len() < n {
        return None;
    }
    let prefix = starts_with(piece, name);
    if piece.len() == n {
        assert(piece@.take(n as int) =~= piece@);
        if prefix {
            return Some(Vec::new());
        }
        return None;
    }
    if !prefix || piece[n] != '=' {
        return None;
    }
    let mut out: Vec<char> = Vec::new();
    let mut i: usize = n + 1;
    while i < piece.len()
        invariant
            n + 1 <= i <= piece@.len(),
            out@ == piece@.subrange(n + 1, i as int),
        decreases piece@.len() - i,
    {
        out.push(piece[i]);
        i = i + 1;
        assert(out@ =~= piece@.subrange(n + 1, i as int));
    }
    assert(out@ =~= piece@.skip(n + 1));
    Some(out)
}

/// The value of the field `name` when it is given exactly once.
fn lookup(pieces: &Vec<Vec<char>>, name: &Vec<char>) -> (r: Option<Vec<char>>)
    ensures
        field_values(texts(pieces@), name@).len() == 1 ==> (r matches Some(v) && v@ == field_values(texts(pieces@), name@)[0]),
        field_values(texts(pieces@), name@).len() != 1 ==> r is None,
{
    let ghost dv = texts(pieces@);
    let mut found: Option<Vec<char>> = None;
    let mut dup = false;
    let mut i: usize = 0;
    assert(dv.take(0) =~= Seq::<Seq<char>>::empty());
    while i < pieces.len()
        invariant
            dv == texts(pieces@),
            i <= pieces@.len(),
            dup == (field_values(dv.take(i as int), name@).len() >= 2),
            !dup ==> (found is None <==> field_values(dv.take(i as int), name@).len() == 0),
            !dup ==> (found matches Some(v) ==> v@ == field_values(dv.take(i as int), name@)[0]),
        decreases pieces@.len() - i,
    {
        assert(dv.take(i + 1).drop_last() =~= dv.take(i as int));
        assert(dv.take(i + 1).last() == pieces@[i as int]@);
        match value_for(&pieces[i], name) {
            Some(v) => {
                if found.is_some() {
                    dup = true;
                } else if !dup {
                    found = Some(v);
                }
            },
            None => {},
        }
        i = i + 1;
    }
    assert(dv.take(pieces@.len() as int) =~= dv);
    if dup {
        None
    } else {
        found
    }
}

/// Reads a uid: decimal digits only, with a value that fits in a `usize`.
fn parse_uid(s: &Vec<char>) -> (r: Option<usize>)
    ensures
        match uid_value(s@) {
            Some(v) => r matches Some(u) && u as int == v,
            None => r is None,
        },
{
    if s.len() == 0 {
        return None;
    }
    let mut i: usize = 0;
    while i < s.len()
        invariant
            i <= s@.len(),
            forall|k: int| 0 <= k < i ==> is_digit(#[trigger] s@[k]),
        decreases s@.len() - i,
    {
        if !(s[i] >= '0' && s[i] <= '9') {
            return None;
        }
        i = i + 1;
    }
    let mut v: usize = 0;
    let mut j: usize = 0;
    assert(s@.take(0) =~= Seq::<char>::empty());
    while j < s.len()
        invariant
            j <= s@.len(),
            forall|k: int| 0 <= k < s@.len() ==> is_digit(#[trigger] s@[k]),
            v as int == decimal_value(s@.take(j as int)),
        decreases s@.len() - j,
    {
        let d = (s[j] as u32 - '0' as u32) as usize;
        assert(s@.take(j + 1).drop_last() =~= s@.take(j as int));
        if v > (usize::MAX - d) / 10 {
            proof {
                lemma_decimal_prefix(s@, j + 1);
                assert(decimal_value(s@.take(j + 1)) == v * 10 + d);
            }
            return None;
        }
        v = v * 10 + d;
        j = j + 1;
    }
    assert(s@.take(s@.len() as int) =~= s@);
    Some(v)
}

proof fn lemma_uid_ten()
    ensures
        uid_value(seq!['1', '0']) == Some(10int),
{
    let ten = seq!['1', '0'];
    let one = seq!['1'];
    assert(ten.drop_last() =~= one);
    assert(one.drop_last() =~= Seq::<char>::empty());
    assert(decimal_value(Seq::<char>::empty()) == 0);
    assert(decimal_value(one) == 1);
    assert(decimal_value(ten) == 10);
}

/// The pieces of an issued profile's text, for an email without `&`.
proof fn lemma_profile_pieces(s: Seq<char>)
    requires
        forall|i: int| 0 <= i < s.len() ==> #[trigger] s[i] != '&',
    ensures
        split_fields(profile_text(s)) == seq![
            seq!['e', 'm', 'a', 'i', 'l', '='] + s,
            seq!['u', 'i', 'd', '=', '1', '0'],
            seq!['r', 'o', 'l', 'e', '=', 'u', 's', 'e', 'r'],
        ],
{
    let a = seq!['e', 'm', 'a', 'i', 'l', '='] + s;
    let b = seq!['u', 'i', 'd', '=', '1', '0'];
    let c = seq!['r', 'o', 'l', 'e', '=', 'u', 's', 'e', 'r'];
    let e0 = Seq::<char>::empty();
    assert forall|i: int| 0 <= i < a.len() implies #[trigger] a[i] != '&' by {
        if i >= 6 {
            assert(a[i] == s[i - 6]);
        }
    }
    assert forall|i: int| 0 <= i < b.len() implies #[trigger] b[i] != '&' by {}
    assert forall|i: int| 0 <= i < c.len() implies #[trigger] c[i] != '&' by {}
    lemma_split_fields_append(e0, a);
    assert(e0 + a =~= a);
    assert(split_fields(e0) == seq![e0]);
    assert(seq![e0].update(0, e0 + a) =~= seq![a]);
    let a1 = a.push('&');
    assert(a1.drop_last() =~= a);
    assert(split_fields(a1) =~= seq![a, e0]);
    lemma_split_fields_append(a1, b);
    assert(e0 + b =~= b);
    assert(split_fields(a1 + b) =~= seq![a, b]);
    let b1 = (a1 + b).push('&');
    assert(b1.drop_last() =~= a1 + b);
    assert(split_fields(b1) =~= seq![a, b, e0]);
    lemma_split_fields_append(b1, c);
    assert(e0 + c =~= c);
    assert(split_fields(b1 + c) =~= seq![a, b, c]);
    assert(b1 + c =~= profile_text(s));
}

/// An issued profile's text reads back as the profile it was made from: the
/// sanitized email, uid 10 and role `user`.
pub proof fn lemma_profile_text_parses(email: Seq<char>)
    ensures
        parse_profile_spec(profile_text(sanitize(email))) == Some((sanitize(email), user_uid(), user_role())),
{
    let s = sanitize(email);
    let pred = |c: char| c != '=' && c != '&';
    assert forall|i: int| 0 <= i < s.len() implies #[trigger] s[i] != '&' && s[i] != '=' by {
        email.lemma_filter_pred(pred, i);
    }
    let a = seq!['e', 'm', 'a', 'i', 'l', '='] + s;
    let b = seq!['u', 'i', 'd', '=', '1', '0'];
    let c = seq!['r', 'o', 'l', 'e', '=', 'u', 's', 'e', 'r'];
    let pieces = seq![a, b, c];
    lemma_profile_pieces(s);
    lemma_uid_ten();
    assert(a.take(5) =~= email_name());
    assert(a.skip(6) =~= s);
    assert(a.take(3)[0] != uid_name()[0]);
    assert(a.take(4)[0] != role_name()[0]);
    assert(b.take(3) =~= uid_name());
    assert(b.skip(4) =~= seq!['1', '0']);
    assert(b.take(5)[0] != email_name()[0]);
    assert(b.take(4)[0] != role_name()[0]);
    assert(c.take(4) =~= role_name());
    assert(c.skip(5) =~= user_role());
    assert(c.take(5)[0] != email_name()[0]);
    assert(c.take(3)[0] != uid_name()[0]);
    assert(field_value(a, email_name()) == Some(s));
    assert(field_value(b, email_name()) is None);
    assert(field_value(c, email_name()) is None);
    assert(field_value(a, uid_name()) is None);
    assert(field_value(b, uid_name()) == Some(seq!['1', '0']));
    assert(field_value(c, uid_name()) is None);
    assert(field_value(a, role_name()) is None);
    assert(field_value(b, role_name()) is None);
    assert(field_value(c, role_name()) == Some(user_role()));
    let p0 = Seq::<Seq<char>>::empty();
    let p1 = seq![a];
    let p2 = seq![a, b];
    assert(p1.last() == a && p2.last() == b && pieces.last() == c);
    assert(p1.drop_last() =~= p0);
    assert(p2.drop_last() =~= p1);
    assert(pieces.drop_last() =~= p2);
    assert(field_values(p0, email_name()) == p0);
    assert(field_values(p0, uid_name()) == p0);
    assert(field_values(p0, role_name()) == p0);
    assert(field_values(p1, email_name()) == p0.push(s));
    assert(field_values(p1, uid_name()) == p0);
    assert(field_values(p1, role_name()) == p0);
    assert(field_values(p2, email_name()) == p0.push(s));
    assert(field_values(p2, uid_name()) == p0.push(seq!['1', '0']));
    assert(field_values(p2, role_name()) == p0);
    assert(field_values(pieces, email_name()) == p0.push(s));
    assert(field_values(pieces, uid_name()) == p0.push(seq!['1', '0']));
    assert(field_values(pieces, role_name()) == p0.push(user_role()));
}

impl Cookie {
    /// The key length that the codec works with.
    pub open spec fn well_formed(&self) -> bool {
        self.key@.len() == 16
    }

    /// A codec with a fresh random key.
    pub fn new() -> (r: Self)
        ensures
            r.well_formed(),
    {
        Cookie { key: generate_random_aes_key() }
    }

    /// A codec with the given key, whose UTF-8 bytes must be one block long.
    pub fn new_with_key(key: &str) -> (r: Self)
        requires
            key.spec_bytes().len() == 16,
        ensures
            r.key@ == key.spec_bytes(),
            r.well_formed(),
    {
        let bytes = key.as_bytes();
        let mut k: Vec<u8> = Vec::with_capacity(16);
        let mut i: usize = 0;
        while i < bytes.len()
            invariant
                i <= bytes@.len(),
                k@ == bytes@.take(i as int),
            decreases bytes@.len() - i,
        {
            k.push(bytes[i]);
            i = i + 1;
            assert(k@ =~= bytes@.take(i as int));
        }
        assert(bytes@.take(bytes@.len() as int) =~= bytes@);
        Cookie { key: k }
    }

    /// The cipher block size.
    pub fn block_size(&self) -> (r: usize)
        ensures
            r == 16,
    {
        16
    }

    /// The plaintext cookie for `email`: `=` and `&` are stripped from it, and
    /// the fields follow in the order email, uid, role.
    pub fn profile_for(&self, email: &str) -> (r: String)
        ensures
            r@ == profile_text(sanitize(email@)),
    {
        let cs = chars_of(email);
        let mut out: Vec<char> = Vec::new();
        proof { reveal_strlit("email="); }
        push_chars(&mut out, "email=");
        let ghost head = out@;
        let mut i: usize = 0;
        while i < cs.len()
            invariant
                cs@ == email@,
                i <= cs@.len(),
                out@ == head + sanitize(cs@.take(i as int)),
            decreases cs@.len() - i,
        {
            let c = cs[i];
            proof {
                assert(cs@.take(i + 1) =~= cs@.take(i as int).push(c));
                reveal(Seq::filter);
                assert(cs@.take(i + 1).drop_last() =~= cs@.take(i as int));
            }
            if c != '=' && c != '&' {
                out.push(c);
            }
            i = i + 1;
            assert(out@ =~= head + sanitize(cs@.take(i as int)));
        }
        assert(cs@.take(cs@.len() as int) =~= cs@);
        proof { reveal_strlit("&uid=10&role=user"); }
        push_chars(&mut out, "&uid=10&role=user");
        assert(out@ =~= profile_text(sanitize(email@)));
        string_of(&out)
    }

    /// Relies on serde_urlencoded::from_str: url-form text decoded into a map;
    /// a malformed text is a decode error.
    #[verifier::external_body]
    pub fn deserialize_cookie(serialized_cookie: &str) -> (r: Result<HashMap<String, String>, CryptoError>)
        ensures
            r matches Err(e) ==> e == CryptoError::DecodeError,
    {
        serde_urlencoded::from_str(serialized_cookie).map_err(|_| CryptoError::DecodeError)
    }

    /// Relies on serde_urlencoded::to_string: a map encoded as url-form text, in
    /// the map's own iteration order.
    #[verifier::external_body]
    pub fn serialize_cookie(profile: HashMap<&str, &str>) -> (r: Result<String, CryptoError>)
        ensures
            r matches Err(e) ==> e == CryptoError::DecodeError,
    {
        serde_urlencoded::to_string(profile).map_err(|_| CryptoError::DecodeError)
    }

    /// Reads a profile from its `key=value&...` text; see `parse_profile_spec`.
    pub fn deserialize_profile(serialized_profile: &str) -> (r: Result<Profile, CryptoError>)
        ensures
            match parse_profile_spec(serialized_profile@) {
                Some(v) => r matches Ok(p) && p@ == v,
                None => r == Err::<Profile, CryptoError>(CryptoError::DecodeError),
            },
    {
        let t = chars_of(serialized_profile);
        let pieces = split_on_amp(&t);
        proof {
            reveal_strlit("email");
            reveal_strlit("uid");
            reveal_strlit("role");
        }
        let email_key = chars_of("email");
        let uid_key = chars_of("uid");
        let role_key = chars_of("role");
        assert(email_key@ =~= email_name());
        assert(uid_key@ =~= uid_name());
        assert(role_key@ =~= role_name());
        let email = match lookup(&pieces, &email_key) {
            Some(v) => v,
            None => return Err(CryptoError::DecodeError),
        };
        let uid_text = match lookup(&pieces, &uid_key) {
            Some(v) => v,
            None => return Err(CryptoError::DecodeError),
        };
        let role = match lookup(&pieces, &role_key) {
            Some(v) => v,
            None => return Err(CryptoError::DecodeError),
        };
        let uid = match parse_uid(&uid_text) {
            Some(u) => u,
            None => return Err(CryptoError::DecodeError),
        };
        Ok(Profile { email: string_of(&email), uid, role: string_of(&role) })
    }

    /// Decrypts a cookie and reads the profile in it. Ciphertext issued by
    /// `encrypted_profile_for` under the same key reads back as the issued profile.
    pub fn decrypted_profile_for(&self, encrypted_profile: &[u8]) -> (r: Result<Profile, CryptoError>)
        requires
            self.well_formed(),
        ensures
            match decrypted_profile_spec(self.key@, encrypted_profile@) {
                Ok(v) => r matches Ok(p) && p@ == v,
                Err(e) => r matches Err(x) && x == e,
            },
            forall|email: Seq<char>| #[trigger] profile_ciphertext(self.key@, email) == encrypted_profile@
                ==> (r matches Ok(p) && p@ == (sanitize(email), user_uid(), user_role())),
    {
        let serialized = self.decrypt_cookie(encrypted_profile);
        let r = match serialized {
            Err(e) => Err(e),
            Ok(bytes) => {
                match string_from_utf8(bytes) {
                    None => Err(CryptoError::DecodeError),
                    Some(text) => Self::deserialize_profile(text.as_str()),
                }
            },
        };
        proof {
            assert forall|email: Seq<char>| #[trigger] profile_ciphertext(self.key@, email) == encrypted_profile@
                implies (r matches Ok(p) && p@ == (sanitize(email), user_uid(), user_role())) by {
                let t = profile_text(sanitize(email));
                let b = encode_utf8(t);
                assert(ecb_encrypt_spec(self.key@, pkcs7_pad_spec(b)) == encrypted_profile@);
                vstd::utf8::encode_utf8_valid_utf8(t);
                vstd::utf8::encode_utf8_decode_utf8(t);
                lemma_profile_text_parses(email);
            }
        }
        r
    }

    /// The ECB ciphertext of the cookie for `email` under this codec's key.
    pub fn encrypted_profile_for(&self, email: &str) -> (r: Result<Vec<u8>, CryptoError>)
        requires
            self.well_formed(),
        ensures
            r matches Ok(c) && c@ == profile_ciphertext(self.key@, email@),
    {
        let profile = self.profile_for(email);
        self.encrypt_cookie(profile.as_str())
    }

    /// Pads `cookie` and encrypts it under ECB with this codec's key.
    pub fn encrypt_cookie(&self, cookie: &str) -> (r: Result<Vec<u8>, CryptoError>)
        requires
            self.well_formed(),
        ensures
            r matches Ok(c) && c@ == ecb_encrypt_spec(self.key@, pkcs7_pad_spec(cookie.spec_bytes())),
    {
        Ok(encrypt_ecb_text(cookie.as_bytes(), self.key.as_slice()))
    }

    /// Decrypts `cookie` under ECB with this codec's key and strips the padding.
    pub fn decrypt_cookie(&self, cookie: &[u8]) -> (r: Result<Vec<u8>, CryptoError>)
        requires
            self.well_formed(),
        ensures
            cookie@.len() % 16 != 0 ==> r == Err::<Vec<u8>, CryptoError>(CryptoError::DecodeError),
            cookie@.len() % 16 == 0 ==> match pkcs7_unpad_spec(ecb_decrypt_spec(self.key@, cookie@)) {
                Some(p) => r matches Ok(v) && v@ == p,
                None => r == Err::<Vec<u8>, CryptoError>(CryptoError::PaddingError),
            },
            forall|p: Seq<u8>| #[trigger] ecb_encrypt_spec(self.key@, pkcs7_pad_spec(p)) == cookie@
                ==> (r matches Ok(v) && v@ == p),
    {
        decrypt_ecb_text(cookie, self.key.as_slice())
    }
}

} // verus!
