//! How registries are addressed and what is made of their answers.

use crate::docker::registry as docker;
use crate::docker::registry::ActionView;
use crate::github::registry as github;
use crate::laws::lines;
use crate::laws::requirements;
use crate::text;
use crate::util;
use vstd::prelude::*;

verus! {

// ---------------------------------------------------------------------------
// Addresses
// ---------------------------------------------------------------------------

/// A local registry is spoken to in plain HTTP and every other one over TLS; an
/// address that is given stands for all of them.
pub proof fn law_endpoint(base: Seq<char>, host: Seq<char>, port: Seq<char>)
    ensures
        docker::endpoint_of(Some(base), host) == base,
        docker::endpoint_of(None, "localhost"@) == "http"@ + "://"@ + "localhost"@,
        docker::endpoint_of(None, "localhost:"@ + port) == "http"@ + "://"@ + ("localhost:"@ + port),
        docker::endpoint_of(None, "127.0.0.1"@ + port) == "http"@ + "://"@ + ("127.0.0.1"@ + port),
        host != "localhost"@ && (forall|rest: Seq<char>| host != #[trigger] ("localhost:"@ + rest))
            && (forall|rest: Seq<char>| host != #[trigger] ("127.0.0.1"@ + rest))
            ==> docker::endpoint_of(None, host) == "https"@ + "://"@ + host,
{
    assert(("localhost:"@ + port).take("localhost:"@.len() as int) =~= "localhost:"@);
    assert(("127.0.0.1"@ + port).take("127.0.0.1"@.len() as int) =~= "127.0.0.1"@);
    if text::has_prefix(host, "localhost:"@) {
        let rest = host.skip("localhost:"@.len() as int);
        assert(host =~= "localhost:"@ + rest);
    }
    if text::has_prefix(host, "127.0.0.1"@) {
        let rest = host.skip("127.0.0.1"@.len() as int);
        assert(host =~= "127.0.0.1"@ + rest);
    }
}

/// The query of a token request is appended to the realm: with a question mark,
/// or with an ampersand where the realm has a query already.
pub proof fn law_token_address(realm: Seq<char>, scope: Seq<char>, service: Seq<char>)
    ensures
        !realm.contains('?') ==> docker::token_address(realm, scope, None) == realm + seq!['?']
            + "scope="@ + scope,
        realm.contains('?') ==> docker::token_address(realm, scope, None) == realm + seq!['&']
            + "scope="@ + scope,
        docker::token_address(realm, scope, Some(service)) == docker::token_address(
            realm,
            scope,
            None,
        ) + "&service="@ + service,
{
    reveal_strlit("?");
    reveal_strlit("&");
    assert("?"@ =~= seq!['?']);
    assert("&"@ =~= seq!['&']);
    let plain = docker::token_address(realm, scope, None);
    let mark = if realm.contains('?') {
        "&"@
    } else {
        "?"@
    };
    assert(plain =~= realm + mark + "scope="@ + scope);
    assert(docker::token_address(realm, scope, Some(service)) =~= plain + "&service="@ + service);
}

// ---------------------------------------------------------------------------
// Challenges
// ---------------------------------------------------------------------------

/// A comma or a blank.
pub open spec fn separator(c: char) -> bool {
    c == ',' || text::ascii_space(c)
}

/// A key of a parameter: solid, without `=` or a comma, and not beginning with a
/// separator.
pub open spec fn a_param_key(key: Seq<char>) -> bool {
    &&& requirements::solid(key)
    &&& !separator(key[0])
    &&& !key.contains('=') && !key.contains(',')
}

proof fn lemma_shift(front: Seq<char>, rest: Seq<char>, i: int)
    requires
        0 <= i <= rest.len(),
    ensures
        docker::params_from(front + rest, front.len() + i) == docker::params_from(rest, i),
    decreases rest.len() - i,
{
    let s = front + rest;
    let n = front.len() as int;
    assert(s.skip(n + i) =~= rest.skip(i));
    text::lemma_first_index_is(rest.skip(i), docker::not_separator());
    let a = docker::key_start(rest, i);
    assert(docker::key_start(s, n + i) == n + a);
    assert(s.skip(n + a) =~= rest.skip(a));
    text::lemma_first_index_is(rest.skip(a), docker::ends_key());
    let b = docker::key_end(rest, a);
    assert(docker::key_end(s, n + a) == n + b);
    if b < rest.len() && rest[b] == '=' {
        assert(s[n + b] == rest[b]);
        assert(s.subrange(n + a, n + b) =~= rest.subrange(a, b));
        let quoted = b + 1 < rest.len() && rest[b + 1] == '"';
        if b + 1 < rest.len() {
            assert(s[n + b + 1] == rest[b + 1]);
        }
        if quoted {
            assert(s.skip(n + b + 2) =~= rest.skip(b + 2));
            text::lemma_first_index_is(rest.skip(b + 2), text::the_char('"'));
        } else {
            assert(s.skip(n + b + 1) =~= rest.skip(b + 1));
            text::lemma_first_index_is(rest.skip(b + 1), text::the_char(','));
        }
        let c = docker::value_end(rest, b + 1);
        assert(docker::value_end(s, n + b + 1) == n + c);
        let next = if quoted && c < rest.len() {
            c + 1
        } else {
            c
        };
        if quoted {
            assert(s.subrange(n + b + 2, n + c) =~= rest.subrange(b + 2, c));
        } else {
            assert(s.subrange(n + b + 1, n + c) =~= rest.subrange(b + 1, c));
        }
        lemma_shift(front, rest, next);
    } else if b < rest.len() {
        assert(s[n + b] == rest[b]);
    }
}

/// The parameters of a challenge: a quoted value is what stands between its
/// quotes, commas and all; an unquoted one ends at a comma; a text without `=`
/// has none.
pub proof fn law_parameters(
    gap: Seq<char>,
    key: Seq<char>,
    value: Seq<char>,
    rest: Seq<char>,
)
    requires
        forall|i: int| 0 <= i < gap.len() ==> separator(#[trigger] gap[i]),
        a_param_key(key),
    ensures
        !value.contains('"') ==> docker::params_from(
            gap + key + seq!['=', '"'] + value + seq!['"'] + rest,
            0,
        ) == seq![(key, value)] + docker::params_from(rest, 0),
        !value.contains(',') && requirements::solid(value) && value[0] != '"' && (rest.len() > 0
            ==> rest[0] == ',') ==> docker::params_from(gap + key + seq!['='] + value + rest, 0)
            == seq![(key, value)] + docker::params_from(rest, 0),
        docker::params_from(gap + key, 0) == Seq::<(Seq<char>, Seq<char>)>::empty(),
{
    if !value.contains('"') {
        lemma_quoted(gap, key, value, rest);
    }
    if !value.contains(',') && requirements::solid(value) && value[0] != '"' && (rest.len() > 0
        ==> rest[0] == ',') {
        lemma_unquoted(gap, key, value, rest);
    }
    let s = gap + key;
    lemma_key(gap, key, seq![]);
    assert(gap + key + Seq::<char>::empty() =~= s);
}

proof fn lemma_key(gap: Seq<char>, key: Seq<char>, tail: Seq<char>)
    requires
        forall|i: int| 0 <= i < gap.len() ==> separator(#[trigger] gap[i]),
        a_param_key(key),
        tail.len() > 0 ==> tail[0] == '=',
    ensures
        docker::key_start(gap + key + tail, 0) == gap.len(),
        docker::key_end(gap + key + tail, gap.len() as int) == gap.len() + key.len(),
        text::trim((gap + key + tail).subrange(gap.len() as int, (gap.len() + key.len()) as int)) == key,
{
    let s = gap + key + tail;
    let n = gap.len() as int;
    let m = key.len() as int;
    assert(s.skip(0) =~= s);
    assert forall|i: int| 0 <= i < n implies !docker::not_separator()(s[i]) by {
        assert(s[i] == gap[i]);
    }
    assert(s[n] == key[0]);
    text::lemma_first_index(s, docker::not_separator(), n);
    let t = s.skip(n);
    assert forall|i: int| 0 <= i < m implies !docker::ends_key()(t[i]) by {
        assert(t[i] == key[i]);
        assert(key.contains(key[i]));
    }
    if tail.len() > 0 {
        assert(t[m] == '=');
    }
    text::lemma_first_index(t, docker::ends_key(), m);
    let none = Seq::<char>::empty();
    assert(s.subrange(n, n + m) =~= none + key + none);
    requirements::law_trim(none, key, none);
}

proof fn lemma_quoted(gap: Seq<char>, key: Seq<char>, value: Seq<char>, rest: Seq<char>)
    requires
        forall|i: int| 0 <= i < gap.len() ==> separator(#[trigger] gap[i]),
        a_param_key(key),
        !value.contains('"'),
    ensures
        docker::params_from(gap + key + seq!['=', '"'] + value + seq!['"'] + rest, 0) == seq![
            (key, value),
        ] + docker::params_from(rest, 0),
{
    let s = gap + key + seq!['=', '"'] + value + seq!['"'] + rest;
    let tail = seq!['=', '"'] + value + seq!['"'] + rest;
    assert(s =~= gap + key + tail);
    lemma_key(gap, key, tail);
    let b = (gap.len() + key.len()) as int;
    assert(s[b] == '=' && s[b + 1] == '"');
    let inner = s.skip(b + 2);
    let v = value.len() as int;
    assert forall|i: int| 0 <= i < v implies !text::the_char('"')(inner[i]) by {
        assert(inner[i] == value[i]);
        assert(value.contains(value[i]));
    }
    assert(inner[v] == '"');
    text::lemma_first_index(inner, text::the_char('"'), v);
    let c = b + 2 + v;
    assert(docker::value_end(s, b + 1) == c);
    assert(s.subrange(b + 2, c) =~= value);
    let front = gap + key + seq!['=', '"'] + value + seq!['"'];
    assert(front.len() == c + 1);
    lemma_shift(front, rest, 0);
}

proof fn lemma_unquoted(gap: Seq<char>, key: Seq<char>, value: Seq<char>, rest: Seq<char>)
    requires
        forall|i: int| 0 <= i < gap.len() ==> separator(#[trigger] gap[i]),
        a_param_key(key),
        !value.contains(','),
        requirements::solid(value),
        value[0] != '"',
        rest.len() > 0 ==> rest[0] == ',',
    ensures
        docker::params_from(gap + key + seq!['='] + value + rest, 0) == seq![(key, value)]
            + docker::params_from(rest, 0),
{
    let s = gap + key + seq!['='] + value + rest;
    let tail = seq!['='] + value + rest;
    assert(s =~= gap + key + tail);
    lemma_key(gap, key, tail);
    let b = (gap.len() + key.len()) as int;
    assert(s[b] == '=' && s[b + 1] == value[0]);
    let inner = s.skip(b + 1);
    let v = value.len() as int;
    assert forall|i: int| 0 <= i < v implies !text::the_char(',')(inner[i]) by {
        assert(inner[i] == value[i]);
        assert(value.contains(value[i]));
    }
    if rest.len() > 0 {
        assert(inner[v] == rest[0]);
    }
    text::lemma_first_index(inner, text::the_char(','), v);
    let c = b + 1 + v;
    assert(docker::value_end(s, b + 1) == c);
    let none = Seq::<char>::empty();
    assert(s.subrange(b + 1, c) =~= none + value + none);
    requirements::law_trim(none, value, none);
    let front = gap + key + seq!['='] + value;
    assert(front.len() == c);
    lemma_shift(front, rest, 0);
}

/// Of a parameter that is given twice, the last one counts.
pub proof fn law_parameter(
    list: Seq<(Seq<char>, Seq<char>)>,
    key: Seq<char>,
    other: Seq<char>,
    value: Seq<char>,
)
    ensures
        docker::param(seq![], key) is None,
        docker::param(list.push((key, value)), key) == Some(value),
        key != other ==> docker::param(list.push((other, value)), key) == docker::param(list, key),
{
    assert(list.push((other, value)).drop_last() =~= list);
}

/// A challenge is one of the `Bearer` scheme, in any case, with a realm; its
/// service and its scope are optional.
pub proof fn law_challenge(scheme: Seq<char>, params: Seq<char>)
    requires
        forall|i: int| 0 <= i < scheme.len() ==> !text::white_space(#[trigger] scheme[i]),
    ensures
        ({
            let r = docker::challenge_of(scheme + seq![' '] + params);
            let list = docker::params_from(params, 0);
            if docker::lower(scheme) == seq!['b', 'e', 'a', 'r', 'e', 'r'] {
                match docker::param(list, "realm"@) {
                    Some(realm) => r == Some(
                        (realm, docker::param(list, "service"@), docker::param(list, "scope"@)),
                    ),
                    None => r is None,
                }
            } else {
                r is None
            }
        }),
{
    reveal_strlit("Bearer ");
    reveal_strlit("bearer");
    let header = scheme + seq![' '] + params;
    let k = scheme.len() as int;
    assert forall|i: int| 0 <= i < k implies !text::a_space()(header[i]) by {
        assert(header[i] == scheme[i]);
    }
    assert(header[k] == ' ');
    assert(text::white_space(' '));
    text::lemma_first_index(header, text::a_space(), k);
    assert(header.take(k) =~= scheme);
    assert(header.skip(k + 1) =~= params);
    assert("bearer"@ =~= seq!['b', 'e', 'a', 'r', 'e', 'r']);
    if text::has_prefix(header, "Bearer "@) {
        let p = header.take(7);
        assert(p[0] == 'B' && p[1] == 'e' && p[2] == 'a' && p[3] == 'r' && p[4] == 'e' && p[5]
            == 'r' && p[6] == ' ');
        assert(header[6] == ' ');
        assert(k == 6) by {
            if k > 6 {
                assert(header[6] == scheme[6]);
            }
            if k < 6 {
                assert(p[k] == ' ');
            }
        }
        assert(scheme[0] == 'B' && scheme[1] == 'e' && scheme[2] == 'a' && scheme[3] == 'r'
            && scheme[4] == 'e' && scheme[5] == 'r') by {
            assert(header[0] == p[0] && header[1] == p[1] && header[2] == p[2] && header[3] == p[3]
                && header[4] == p[4] && header[5] == p[5]);
        }
        assert(text::ascii_lower('B') == 'b');
        assert(docker::lower(scheme) =~= "bearer"@);
    }
}

// ---------------------------------------------------------------------------
// Answers
// ---------------------------------------------------------------------------

/// What follows the answer to a tag request: the first refusal asks for a token
/// where its challenge says how; a success is read; anything else fails.
pub proof fn law_answer(
    repository: Seq<char>,
    first: bool,
    code: u16,
    status: Seq<char>,
    challenge: Option<Seq<char>>,
)
    ensures
        ({
            let r = docker::after_response(repository, first, code, status, challenge);
            &&& r is RequestToken ==> first && code == 401 && (challenge matches Some(h)
                && docker::challenge_of(h) is Some)
            &&& first && code == 401 ==> (challenge matches Some(h) ==> (docker::challenge_of(
                h,
            ) matches Some(c) ==> r == ActionView::RequestToken(
                docker::token_address(
                    c.0,
                    if c.2 is Some {
                        c.2->0
                    } else {
                        "repository:"@ + repository + ":pull"@
                    },
                    c.1,
                ),
            )))
            &&& r is ReadTags <==> 200 <= code < 300
            &&& !first && code == 401 ==> r is Fail
        }),
        util::http_success(code) <==> 200 <= code < 300,
{
}

/// The hint on a rate limit counts whole minutes from a minute on, and seconds
/// below; once the limit has ended there is none.
pub proof fn law_reset(now: u64, wait: u64)
    requires
        now + wait <= u64::MAX,
    ensures
        ({
            let r = github::reset_hint((now + wait) as u64, now);
            let n = (wait / 60) as u64;
            &&& wait == 0 ==> r.len() == 0
            &&& wait == 1 ==> r == " Resets in "@ + text::decimal(1) + " "@ + "second"@ + "."@
            &&& 1 < wait < 60 ==> r == " Resets in "@ + text::decimal(wait as nat) + " "@
                + "second"@ + "s."@
            &&& 60 <= wait < 120 ==> r == " Resets in "@ + text::decimal(1) + " "@ + "minute"@
                + "."@
            &&& 120 <= wait ==> r == " Resets in "@ + text::decimal(n as nat) + " "@ + "minute"@
                + "s."@
        }),
{
}

/// A refusal is put down to the rate limit only if nothing is left of it; a token
/// is suggested only to those who have none.
pub proof fn law_refusal(
    status: Seq<char>,
    forbidden: bool,
    remaining: Option<Seq<char>>,
    reset: Option<Seq<char>>,
    now: u64,
    has_token: bool,
)
    ensures
        ({
            let r = github::failure_message(status, forbidden, remaining, reset, now, has_token);
            let with = github::failure_message(status, forbidden, remaining, reset, now, true);
            &&& !forbidden || remaining != Some("0"@) ==> r == "HTTP "@ + status
            &&& forbidden && remaining == Some("0"@) ==> {
                &&& reset is None ==> with == "GitHub API rate limit exhausted."@
                &&& reset matches Some(t) ==> (text::parsed_u64(t) matches Some(n) ==> with
                    == "GitHub API rate limit exhausted."@ + github::reset_hint(n, now))
                &&& !has_token ==> r == with
                    + " Set the GITHUB_TOKEN (or GH_TOKEN) environment variable to raise the limit from 60 to 5000 requests/hour."@
            }
        }),
{
    let with = github::failure_message(status, forbidden, remaining, reset, now, true);
    if forbidden && remaining == Some("0"@) {
        match reset {
            Some(t) => {
                match text::parsed_u64(t) {
                    Some(n) => {
                        assert(with =~= "GitHub API rate limit exhausted."@ + github::reset_hint(
                            n,
                            now,
                        ));
                    },
                    None => {},
                }
            },
            None => {
                assert(with =~= "GitHub API rate limit exhausted."@);
            },
        }
    }
}

/// The repository of an image is that of its name, whatever tag or digest is
/// written behind it.
pub proof fn law_image_repository(s: Seq<char>, v: crate::docker::image::ImageView)
    requires
        lines::spells(s, v),
    ensures
        docker::target_of(s) == Some(crate::docker::image::target_of(v.name)),
        docker::target_of(s) == docker::target_of(v.name),
{
    lines::law_image_reference(s, v);
    let bare = crate::docker::image::ImageView { name: v.name, tag: None, digest: None };
    assert(v.name =~= v.name + lines::optional_part(':', None) + lines::optional_part('@', None));
    assert(lines::spells(v.name, bare));
    lines::law_image_reference(v.name, bare);
}

} // verus!
