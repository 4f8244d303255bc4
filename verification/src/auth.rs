//! Roles and API keys.
//!
//! Keys are configured as a list `key1:role1,key2:role2`; the roles are
//! trader, admin and operator. Without keys, authentication is disabled and
//! every request is served as a trader.

use vstd::prelude::*;

verus! {

broadcast use vstd::string::group_string_axioms;

/// Role for access control.
#[derive(Clone, Copy, Debug, PartialEq, Eq, Structural)]
pub enum Role {
    Trader,
    Admin,
    Operator,
}

/// The code of a character, with the capital letters A to Z taken as small.
pub open spec fn fold_case(c: char) -> u32 {
    if 65 <= c as u32 <= 90 {
        (c as u32 + 32) as u32
    } else {
        c as u32
    }
}

/// Two texts are the same but for the case of the letters A to Z.
pub open spec fn same_ignoring_case(a: Seq<char>, b: Seq<char>) -> bool {
    &&& a.len() == b.len()
    &&& forall|i: int| 0 <= i < a.len() ==> fold_case(#[trigger] a[i]) == fold_case(b[i])
}

/// Whether two texts are the same but for the case of the letters A to Z.
fn matches_ignoring_case(a: &str, b: &str) -> (r: bool)
    ensures
        r == same_ignoring_case(a@, b@),
{
    let n = a.unicode_len();
    if n != b.unicode_len() {
        return false;
    }
    let mut i: usize = 0;
    while i < n
        invariant
            i <= n,
            n == a@.len(),
            n == b@.len(),
            forall|k: int| 0 <= k < i ==> fold_case(#[trigger] a@[k]) == fold_case(b@[k]),
        decreases n - i,
    {
        let x = a.get_char(i) as u32;
        let y = b.get_char(i) as u32;
        let fx: u32 = if 65 <= x && x <= 90 {
            x + 32
        } else {
            x
        };
        let fy: u32 = if 65 <= y && y <= 90 {
            y + 32
        } else {
            y
        };
        if fx != fy {
            return false;
        }
        i += 1;
    }
    true
}

impl Role {
    /// Whether the role may use the admin interface: admin and operator may.
    pub fn may_administer(&self) -> (r: bool)
        ensures
            r == (*self == Role::Admin || *self == Role::Operator),
    {
        match self {
            Role::Admin | Role::Operator => true,
            Role::Trader => false,
        }
    }

    /// The role that a text names, whatever the case of its letters.
    pub open spec fn named(text: Seq<char>) -> Option<Role> {
        if same_ignoring_case(text, "trader"@) {
            Some(Role::Trader)
        } else if same_ignoring_case(text, "admin"@) {
            Some(Role::Admin)
        } else if same_ignoring_case(text, "operator"@) {
            Some(Role::Operator)
        } else {
            None
        }
    }

    /// The role named `trader`, `admin` or `operator`, in any mix of capital
    /// and small letters.
    pub fn from_str(s: &str) -> (r: Option<Role>)
        ensures
            r == Role::named(s@),
    {
        if matches_ignoring_case(s, "trader") {
            Some(Role::Trader)
        } else if matches_ignoring_case(s, "admin") {
            Some(Role::Admin)
        } else if matches_ignoring_case(s, "operator") {
            Some(Role::Operator)
        } else {
            None
        }
    }
}

/// Authenticated user (key id + role).
#[derive(Clone, Debug)]
pub struct AuthUser {
    pub key_id: Option<String>,
    pub role: Role,
}

impl Default for AuthUser {
    /// The user of a request that needs no key: a trader without key id.
    fn default() -> (user: AuthUser)
        ensures
            user.key_id is None,
            user.role == Role::Trader,
    {
        AuthUser { key_id: None, role: Role::Trader }
    }
}

/// What `char::is_whitespace` returns for a character: whether it has the
/// Unicode property White_Space.
pub uninterp spec fn char_is_space(c: char) -> bool;

/// Calls `char::is_whitespace`. The result is named, not computed here.
#[verifier::external_body]
fn is_space(c: char) -> (r: bool)
    ensures
        r == char_is_space(c),
{
    c.is_whitespace()
}

/// The text without the white space at its start.
pub open spec fn trim_start(text: Seq<char>) -> Seq<char>
    decreases text.len(),
{
    if text.len() > 0 && char_is_space(text[0]) {
        trim_start(text.drop_first())
    } else {
        text
    }
}

/// The text without the white space at its end.
pub open spec fn trim_end(text: Seq<char>) -> Seq<char>
    decreases text.len(),
{
    if text.len() > 0 && char_is_space(text.last()) {
        trim_end(text.drop_last())
    } else {
        text
    }
}

/// The text without the white space at its start and at its end.
pub open spec fn trimmed(text: Seq<char>) -> Seq<char> {
    trim_end(trim_start(text))
}

/// The place of the first character `c`, or the length of the text where
/// there is none.
pub open spec fn find_char(text: Seq<char>, c: char) -> int
    decreases text.len(),
{
    if text.len() == 0 || text[0] == c {
        0
    } else {
        1 + find_char(text.drop_first(), c)
    }
}

/// The key and role of one part `key:role` of a key list, with white space
/// around the part, the key and the role set aside. No entry where the
/// part has no colon, the role is none of the three, or the key is empty.
pub open spec fn part_entry(part: Seq<char>) -> Option<(Seq<char>, Role)> {
    let p = trimmed(part);
    let colon = find_char(p, ':');
    if colon >= p.len() {
        None
    } else {
        let key = trimmed(p.take(colon));
        match Role::named(trimmed(p.skip(colon + 1))) {
            Some(role) => if key.len() == 0 {
                None
            } else {
                Some((key, role))
            },
            None => None,
        }
    }
}

/// The entries of a key list `key1:role1,key2:role2`, in their order.
pub open spec fn key_entries(text: Seq<char>) -> Seq<(Seq<char>, Role)>
    decreases text.len(),
{
    let comma = find_char(text, ',');
    let first = match part_entry(text.take(comma)) {
        Some(entry) => seq![entry],
        None => Seq::empty(),
    };
    if 0 <= comma < text.len() {
        first + key_entries(text.skip(comma + 1))
    } else {
        first
    }
}

/// The role of the last entry with the key `key`, if there is one.
pub open spec fn role_of(entries: Seq<(Seq<char>, Role)>, key: Seq<char>) -> Option<Role>
    decreases entries.len(),
{
    if entries.len() == 0 {
        None
    } else if entries.last().0 == key {
        Some(entries.last().1)
    } else {
        role_of(entries.drop_last(), key)
    }
}

/// Auth configuration as a value.
pub struct AuthConfigView {
    pub disable: bool,
    pub entries: Seq<(Seq<char>, Role)>,
}

/// Auth configuration: disable flag and keys with their roles. Of two
/// entries with the same key the later one counts.
#[derive(Clone, Debug)]
pub struct AuthConfig {
    pub disable: bool,
    keys: Vec<(String, Role)>,
}

impl View for AuthConfig {
    type V = AuthConfigView;

    closed spec fn view(&self) -> AuthConfigView {
        AuthConfigView {
            disable: self.disable,
            entries: Seq::new(self.keys@.len(), |i: int| (self.keys@[i].0@, self.keys@[i].1)),
        }
    }
}

/// The place of the first character `c` at or after `from` and before
/// `to`, or `to` where there is none.
pub(crate) fn find_in(text: &Vec<char>, from: usize, to: usize, c: char) -> (i: usize)
    requires
        from <= to <= text.len(),
    ensures
        from <= i <= to,
        i - from == find_char(text@.subrange(from as int, to as int), c),
{
    let ghost range = text@.subrange(from as int, to as int);
    let mut i = from;
    proof {
        assert(range.skip(0) =~= range);
    }
    while i < to && text[i] != c
        invariant
            from <= i <= to <= text.len(),
            range == text@.subrange(from as int, to as int),
            find_char(range, c) == (i - from) + find_char(range.skip(i - from), c),
        decreases to - i,
    {
        proof {
            assert(range.skip(i - from)[0] == text@[i as int]);
            assert(range.skip(i - from).drop_first() =~= range.skip(i - from + 1));
        }
        i += 1;
    }
    proof {
        if i < to {
            assert(range.skip(i - from)[0] == text@[i as int]);
        }
    }
    i
}

/// The bounds of the text between `from` and `to` without the white space
/// at its start and at its end.
pub(crate) fn trim_bounds(text: &Vec<char>, from: usize, to: usize) -> (r: (usize, usize))
    requires
        from <= to <= text.len(),
    ensures
        from <= r.0 <= r.1 <= to,
        text@.subrange(r.0 as int, r.1 as int) == trimmed(text@.subrange(from as int, to as int)),
{
    let mut a = from;
    proof {
        assert(text@.subrange(from as int, to as int) =~= text@.subrange(a as int, to as int));
    }
    while a < to && is_space(text[a])
        invariant
            from <= a <= to <= text.len(),
            trim_start(text@.subrange(from as int, to as int)) == trim_start(
                text@.subrange(a as int, to as int),
            ),
        decreases to - a,
    {
        proof {
            let here = text@.subrange(a as int, to as int);
            assert(here[0] == text@[a as int]);
            assert(here.drop_first() =~= text@.subrange(a + 1, to as int));
        }
        a += 1;
    }
    proof {
        let here = text@.subrange(a as int, to as int);
        if a < to {
            assert(here[0] == text@[a as int]);
        }
        assert(trim_start(here) == here);
    }
    let mut b = to;
    while b > a && is_space(text[b - 1])
        invariant
            a <= b <= to <= text.len(),
            trim_end(text@.subrange(a as int, to as int)) == trim_end(text@.subrange(a as int, b as int)),
        decreases b - a,
    {
        proof {
            let here = text@.subrange(a as int, b as int);
            assert(here.last() == text@[b - 1]);
            assert(here.drop_last() =~= text@.subrange(a as int, b - 1));
        }
        b -= 1;
    }
    proof {
        let here = text@.subrange(a as int, b as int);
        if b > a {
            assert(here.last() == text@[b - 1]);
        }
        assert(trim_end(here) == here);
    }
    (a, b)
}

/// The characters of a text.
pub(crate) fn chars_of(s: &str) -> (v: Vec<char>)
    ensures
        v@ == s@,
{
    let mut v: Vec<char> = Vec::new();
    proof {
        assert(v@ =~= s@.take(0));
    }
    for c in it: s.chars()
        invariant
            it.seq() == s@,
            v@ == s@.take(it.index()),
    {
        v.push(c);
        proof {
            assert(v@ =~= s@.take(it.index() + 1));
        }
    }
    proof {
        assert(v@ =~= s@);
    }
    v
}

/// The key that the value of an `Authorization` header holds: where the
/// value, without the white space around it, starts with `Bearer` and a
/// blank, in any mix of capital and small letters, what follows, without
/// the white space around it.
pub open spec fn bearer_key(value: Seq<char>) -> Option<Seq<char>> {
    let v = trimmed(value);
    if v.len() >= 7 && same_ignoring_case(v.take(7), "bearer "@) {
        Some(trimmed(v.skip(7)))
    } else {
        None
    }
}

/// The API key of a request: the bearer key of its `Authorization` header,
/// or else the value of its `X-API-Key` header without the white space
/// around it.
pub open spec fn request_key(authorization: Option<Seq<char>>, x_api_key: Option<Seq<char>>) -> Option<
    Seq<char>,
> {
    if authorization is Some && bearer_key(authorization->0) is Some {
        bearer_key(authorization->0)
    } else if x_api_key is Some {
        Some(trimmed(x_api_key->0))
    } else {
        None
    }
}

/// Returns the API key from the values of the headers `Authorization:
/// Bearer <key>` and `X-API-Key: <key>` of a request, as far as it has
/// them.
pub fn api_key_from_headers(authorization: Option<&str>, x_api_key: Option<&str>) -> (r: Option<String>)
    ensures
        match request_key(
            match authorization {
                Some(v) => Some(v@),
                None => None,
            },
            match x_api_key {
                Some(v) => Some(v@),
                None => None,
            },
        ) {
            Some(key) => r is Some && r->0@ == key,
            None => r is None,
        },
{
    if let Some(value) = authorization {
        let text = chars_of(value);
        let (a, b) = trim_bounds(&text, 0, text.len());
        proof {
            assert(text@.subrange(0, text.len() as int) =~= value@);
        }
        if b - a >= 7 {
            proof {
                assert(value@.subrange(a as int, a + 7) =~= trimmed(value@).take(7));
                assert(text@.subrange(a + 7, b as int) =~= trimmed(value@).skip(7));
            }
            if matches_ignoring_case(value.substring_char(a, a + 7), "bearer ") {
                let (ka, kb) = trim_bounds(&text, a + 7, b);
                return Some(value.substring_char(ka, kb).to_owned());
            }
        }
    }
    match x_api_key {
        Some(value) => {
            let text = chars_of(value);
            let (a, b) = trim_bounds(&text, 0, text.len());
            proof {
                assert(text@.subrange(0, text.len() as int) =~= value@);
            }
            Some(value.substring_char(a, b).to_owned())
        },
        None => None,
    }
}

impl AuthConfig {
    /// Auth disabled: all requests accepted with default trader role.
    pub fn disabled() -> (config: AuthConfig)
        ensures
            config@.disable,
            config@.entries.len() == 0,
    {
        AuthConfig { disable: true, keys: Vec::new() }
    }

    /// Build from a list `key1:role1,key2:role2`. White space around the
    /// parts, the keys and the roles is set aside; a part that has no
    /// colon, an empty key or a role that is none of trader, admin and
    /// operator is passed over. Without an entry, auth is disabled.
    pub fn from_keys(keys: &str) -> (config: AuthConfig)
        ensures
            config@.entries == key_entries(keys@),
            config@.disable == (key_entries(keys@).len() == 0),
    {
        let text = chars_of(keys);
        let mut entries: Vec<(String, Role)> = Vec::new();
        let mut start: usize = 0;
        let mut active = true;
        let ghost mut found: Seq<(Seq<char>, Role)> = Seq::empty();
        proof {
            assert(text@.skip(0) =~= text@);
            assert(found + key_entries(text@) =~= key_entries(text@));
        }
        while active
            invariant
                start <= text.len(),
                text@ == keys@,
                found == Seq::new(entries@.len(), |i: int| (entries@[i].0@, entries@[i].1)),
                key_entries(text@) == if active {
                    found + key_entries(text@.skip(start as int))
                } else {
                    found
                },
            decreases text.len() - start + if active { 1int } else { 0int },
        {
            let ghost here = text@.skip(start as int);
            proof {
                assert(text@.subrange(start as int, text.len() as int) =~= here);
            }
            let comma = find_in(&text, start, text.len(), ',');
            let ghost part = here.take(comma - start);
            proof {
                assert(text@.subrange(start as int, comma as int) =~= part);
            }
            let (a, b) = trim_bounds(&text, start, comma);
            let colon = find_in(&text, a, b, ':');
            let ghost before = found;
            if colon < b {
                let (ka, kb) = trim_bounds(&text, a, colon);
                let (ra, rb) = trim_bounds(&text, colon + 1, b);
                proof {
                    let p = text@.subrange(a as int, b as int);
                    assert(p.take(colon - a) =~= text@.subrange(a as int, colon as int));
                    assert(p.skip(colon - a + 1) =~= text@.subrange(colon + 1, b as int));
                    assert(keys@.subrange(ra as int, rb as int) == text@.subrange(ra as int, rb as int));
                    assert(keys@.subrange(ka as int, kb as int) == text@.subrange(ka as int, kb as int));
                }
                let role = Role::from_str(keys.substring_char(ra, rb));
                match role {
                    Some(role) => {
                        if kb > ka {
                            let key = keys.substring_char(ka, kb).to_owned();
                            entries.push((key, role));
                            proof {
                                found = found.push((key@, role));
                                assert(found =~= Seq::new(
                                    entries@.len(),
                                    |i: int| (entries@[i].0@, entries@[i].1),
                                ));
                            }
                        }
                    },
                    None => {},
                }
            }
            proof {
                let first = match part_entry(part) {
                    Some(entry) => seq![entry],
                    None => Seq::empty(),
                };
                assert(found =~= before + first);
                if comma < text.len() {
                    assert(here.skip(comma - start + 1) =~= text@.skip(comma + 1));
                    assert(before + (first + key_entries(text@.skip(comma + 1))) =~= found + key_entries(
                        text@.skip(comma + 1),
                    ));
                }
            }
            if comma < text.len() {
                start = comma + 1;
            } else {
                active = false;
            }
        }
        let disable = entries.len() == 0;
        AuthConfig { disable, keys: entries }
    }

    /// The role of a key; that of the last entry, where several entries
    /// have the key.
    pub fn lookup(&self, key: &str) -> (r: Option<Role>)
        ensures
            r == role_of(self@.entries, key@),
    {
        let mut i = self.keys.len();
        let ghost all = self@.entries;
        proof {
            assert(all.take(i as int) =~= all);
        }
        while i > 0
            invariant
                i <= self.keys.len(),
                all == self@.entries,
                role_of(all, key@) == role_of(all.take(i as int), key@),
            decreases i,
        {
            i -= 1;
            proof {
                assert(all.take(i + 1).last() == all[i as int]);
                assert(all.take(i + 1).drop_last() =~= all.take(i as int));
            }
            if self.keys[i].0 == key.to_owned() {
                return Some(self.keys[i].1);
            }
        }
        None
    }
}

} // verus!
