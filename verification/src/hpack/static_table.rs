//! The static table of HPACK.

use crate::hpack::field::{Field, FieldView};
use crate::names::{
    ACCEPT, ACCEPT_CHARSET, ACCEPT_ENCODING, ACCEPT_LANGUAGE, ACCEPT_RANGES,
    ACCESS_CONTROL_ALLOW_ORIGIN, AGE, ALLOW, AUTHORITY, AUTHORIZATION, CACHE_CONTROL,
    CONTENT_DISPOSITION, CONTENT_ENCODING, CONTENT_LANGUAGE, CONTENT_LENGTH, CONTENT_LOCATION,
    CONTENT_RANGE, CONTENT_TYPE, COOKIE, DATE, ETAG, EXPECT, EXPIRES, FROM, GET, GZIP_DEFLATE,
    HOST, HTTP, HTTPS, IF_MATCH, IF_MODIFIED_SINCE, IF_NONE_MATCH, IF_RANGE, IF_UNMODIFIED_SINCE,
    INDEX_HTML, LAST_MODIFIED, LINK, LOCATION, MAX_FORWARDS, METHOD, N200, N204, N206, N304, N400,
    N404, N500, PATH, POST, PROXY_AUTHENTICATE, PROXY_AUTHORIZATION, RANGE, REFERER, REFRESH,
    RETRY_AFTER, SCHEME, SERVER, SET_COOKIE, SLASH, STATUS, STRICT_TRANSPORT_SECURITY,
    TRANSFER_ENCODING, USER_AGENT, VARY, VIA, WWW_AUTHENTICATE,
};
use crate::names::spelled;
use vstd::prelude::*;

verus! {

/// The number of entries in the static table.
pub const STATIC_LEN: usize = 61;

/// The entry with this index, from 1 on.
#[verifier::opaque]
pub open spec fn static_entry(index: usize) -> FieldView {
    match index {
        1 => FieldView { name: AUTHORITY@, value: Seq::empty() },
        2 => FieldView { name: METHOD@, value: GET@ },
        3 => FieldView { name: METHOD@, value: POST@ },
        4 => FieldView { name: PATH@, value: SLASH@ },
        5 => FieldView { name: PATH@, value: INDEX_HTML@ },
        6 => FieldView { name: SCHEME@, value: HTTP@ },
        7 => FieldView { name: SCHEME@, value: HTTPS@ },
        8 => FieldView { name: STATUS@, value: N200@ },
        9 => FieldView { name: STATUS@, value: N204@ },
        10 => FieldView { name: STATUS@, value: N206@ },
        11 => FieldView { name: STATUS@, value: N304@ },
        12 => FieldView { name: STATUS@, value: N400@ },
        13 => FieldView { name: STATUS@, value: N404@ },
        14 => FieldView { name: STATUS@, value: N500@ },
        15 => FieldView { name: ACCEPT_CHARSET@, value: Seq::empty() },
        16 => FieldView { name: ACCEPT_ENCODING@, value: GZIP_DEFLATE@ },
        17 => FieldView { name: ACCEPT_LANGUAGE@, value: Seq::empty() },
        18 => FieldView { name: ACCEPT_RANGES@, value: Seq::empty() },
        19 => FieldView { name: ACCEPT@, value: Seq::empty() },
        20 => FieldView { name: ACCESS_CONTROL_ALLOW_ORIGIN@, value: Seq::empty() },
        21 => FieldView { name: AGE@, value: Seq::empty() },
        22 => FieldView { name: ALLOW@, value: Seq::empty() },
        23 => FieldView { name: AUTHORIZATION@, value: Seq::empty() },
        24 => FieldView { name: CACHE_CONTROL@, value: Seq::empty() },
        25 => FieldView { name: CONTENT_DISPOSITION@, value: Seq::empty() },
        26 => FieldView { name: CONTENT_ENCODING@, value: Seq::empty() },
        27 => FieldView { name: CONTENT_LANGUAGE@, value: Seq::empty() },
        28 => FieldView { name: CONTENT_LENGTH@, value: Seq::empty() },
        29 => FieldView { name: CONTENT_LOCATION@, value: Seq::empty() },
        30 => FieldView { name: CONTENT_RANGE@, value: Seq::empty() },
        31 => FieldView { name: CONTENT_TYPE@, value: Seq::empty() },
        32 => FieldView { name: COOKIE@, value: Seq::empty() },
        33 => FieldView { name: DATE@, value: Seq::empty() },
        34 => FieldView { name: ETAG@, value: Seq::empty() },
        35 => FieldView { name: EXPECT@, value: Seq::empty() },
        36 => FieldView { name: EXPIRES@, value: Seq::empty() },
        37 => FieldView { name: FROM@, value: Seq::empty() },
        38 => FieldView { name: HOST@, value: Seq::empty() },
        39 => FieldView { name: IF_MATCH@, value: Seq::empty() },
        40 => FieldView { name: IF_MODIFIED_SINCE@, value: Seq::empty() },
        41 => FieldView { name: IF_NONE_MATCH@, value: Seq::empty() },
        42 => FieldView { name: IF_RANGE@, value: Seq::empty() },
        43 => FieldView { name: IF_UNMODIFIED_SINCE@, value: Seq::empty() },
        44 => FieldView { name: LAST_MODIFIED@, value: Seq::empty() },
        45 => FieldView { name: LINK@, value: Seq::empty() },
        46 => FieldView { name: LOCATION@, value: Seq::empty() },
        47 => FieldView { name: MAX_FORWARDS@, value: Seq::empty() },
        48 => FieldView { name: PROXY_AUTHENTICATE@, value: Seq::empty() },
        49 => FieldView { name: PROXY_AUTHORIZATION@, value: Seq::empty() },
        50 => FieldView { name: RANGE@, value: Seq::empty() },
        51 => FieldView { name: REFERER@, value: Seq::empty() },
        52 => FieldView { name: REFRESH@, value: Seq::empty() },
        53 => FieldView { name: RETRY_AFTER@, value: Seq::empty() },
        54 => FieldView { name: SERVER@, value: Seq::empty() },
        55 => FieldView { name: SET_COOKIE@, value: Seq::empty() },
        56 => FieldView { name: STRICT_TRANSPORT_SECURITY@, value: Seq::empty() },
        57 => FieldView { name: TRANSFER_ENCODING@, value: Seq::empty() },
        58 => FieldView { name: USER_AGENT@, value: Seq::empty() },
        59 => FieldView { name: VARY@, value: Seq::empty() },
        60 => FieldView { name: VIA@, value: Seq::empty() },
        61 => FieldView { name: WWW_AUTHENTICATE@, value: Seq::empty() },
        _ => FieldView { name: Seq::empty(), value: Seq::empty() },
    }
}

/// The entry with this index, from 1 on.
pub fn get_static(index: usize) -> (f: Field)
    requires
        1 <= index <= STATIC_LEN,
    ensures
        f@ == static_entry(index),
        f@.name.len() < 64,
        f@.value.len() < 64,
{
    reveal(static_entry);
    let none: [u8; 0] = [];
    let nothing: &[u8] = none.as_slice();
    let f = match index {
        1 => Field::copied(AUTHORITY.as_slice(), nothing),
        2 => Field::copied(METHOD.as_slice(), GET.as_slice()),
        3 => Field::copied(METHOD.as_slice(), POST.as_slice()),
        4 => Field::copied(PATH.as_slice(), SLASH.as_slice()),
        5 => Field::copied(PATH.as_slice(), INDEX_HTML.as_slice()),
        6 => Field::copied(SCHEME.as_slice(), HTTP.as_slice()),
        7 => Field::copied(SCHEME.as_slice(), HTTPS.as_slice()),
        8 => Field::copied(STATUS.as_slice(), N200.as_slice()),
        9 => Field::copied(STATUS.as_slice(), N204.as_slice()),
        10 => Field::copied(STATUS.as_slice(), N206.as_slice()),
        11 => Field::copied(STATUS.as_slice(), N304.as_slice()),
        12 => Field::copied(STATUS.as_slice(), N400.as_slice()),
        13 => Field::copied(STATUS.as_slice(), N404.as_slice()),
        14 => Field::copied(STATUS.as_slice(), N500.as_slice()),
        15 => Field::copied(ACCEPT_CHARSET.as_slice(), nothing),
        16 => Field::copied(ACCEPT_ENCODING.as_slice(), GZIP_DEFLATE.as_slice()),
        17 => Field::copied(ACCEPT_LANGUAGE.as_slice(), nothing),
        18 => Field::copied(ACCEPT_RANGES.as_slice(), nothing),
        19 => Field::copied(ACCEPT.as_slice(), nothing),
        20 => Field::copied(ACCESS_CONTROL_ALLOW_ORIGIN.as_slice(), nothing),
        21 => Field::copied(AGE.as_slice(), nothing),
        22 => Field::copied(ALLOW.as_slice(), nothing),
        23 => Field::copied(AUTHORIZATION.as_slice(), nothing),
        24 => Field::copied(CACHE_CONTROL.as_slice(), nothing),
        25 => Field::copied(CONTENT_DISPOSITION.as_slice(), nothing),
        26 => Field::copied(CONTENT_ENCODING.as_slice(), nothing),
        27 => Field::copied(CONTENT_LANGUAGE.as_slice(), nothing),
        28 => Field::copied(CONTENT_LENGTH.as_slice(), nothing),
        29 => Field::copied(CONTENT_LOCATION.as_slice(), nothing),
        30 => Field::copied(CONTENT_RANGE.as_slice(), nothing),
        31 => Field::copied(CONTENT_TYPE.as_slice(), nothing),
        32 => Field::copied(COOKIE.as_slice(), nothing),
        33 => Field::copied(DATE.as_slice(), nothing),
        34 => Field::copied(ETAG.as_slice(), nothing),
        35 => Field::copied(EXPECT.as_slice(), nothing),
        36 => Field::copied(EXPIRES.as_slice(), nothing),
        37 => Field::copied(FROM.as_slice(), nothing),
        38 => Field::copied(HOST.as_slice(), nothing),
        39 => Field::copied(IF_MATCH.as_slice(), nothing),
        40 => Field::copied(IF_MODIFIED_SINCE.as_slice(), nothing),
        41 => Field::copied(IF_NONE_MATCH.as_slice(), nothing),
        42 => Field::copied(IF_RANGE.as_slice(), nothing),
        43 => Field::copied(IF_UNMODIFIED_SINCE.as_slice(), nothing),
        44 => Field::copied(LAST_MODIFIED.as_slice(), nothing),
        45 => Field::copied(LINK.as_slice(), nothing),
        46 => Field::copied(LOCATION.as_slice(), nothing),
        47 => Field::copied(MAX_FORWARDS.as_slice(), nothing),
        48 => Field::copied(PROXY_AUTHENTICATE.as_slice(), nothing),
        49 => Field::copied(PROXY_AUTHORIZATION.as_slice(), nothing),
        50 => Field::copied(RANGE.as_slice(), nothing),
        51 => Field::copied(REFERER.as_slice(), nothing),
        52 => Field::copied(REFRESH.as_slice(), nothing),
        53 => Field::copied(RETRY_AFTER.as_slice(), nothing),
        54 => Field::copied(SERVER.as_slice(), nothing),
        55 => Field::copied(SET_COOKIE.as_slice(), nothing),
        56 => Field::copied(STRICT_TRANSPORT_SECURITY.as_slice(), nothing),
        57 => Field::copied(TRANSFER_ENCODING.as_slice(), nothing),
        58 => Field::copied(USER_AGENT.as_slice(), nothing),
        59 => Field::copied(VARY.as_slice(), nothing),
        60 => Field::copied(VIA.as_slice(), nothing),
        61 => Field::copied(WWW_AUTHENTICATE.as_slice(), nothing),
        _ => Field::copied(nothing, nothing),
    };
    assert(nothing@ =~= Seq::<u8>::empty());
    f
}

/// Whether a field has this name and this value.
pub open spec fn is_field(f: FieldView, name: Seq<char>, value: Seq<char>) -> bool {
    f.name == spelled(name) && f.value == spelled(value)
}

/// The first entries of the static table are the pseudo-headers, with their usual values.
pub proof fn law_static_pseudo_headers()
    ensures
        is_field(static_entry(1), ":authority"@, ""@),
        is_field(static_entry(2), ":method"@, "GET"@),
        is_field(static_entry(3), ":method"@, "POST"@),
        is_field(static_entry(4), ":path"@, "/"@),
        is_field(static_entry(5), ":path"@, "/index.html"@),
        is_field(static_entry(6), ":scheme"@, "http"@),
        is_field(static_entry(7), ":scheme"@, "https"@),
        is_field(static_entry(8), ":status"@, "200"@),
        is_field(static_entry(9), ":status"@, "204"@),
        is_field(static_entry(10), ":status"@, "206"@),
        is_field(static_entry(11), ":status"@, "304"@),
        is_field(static_entry(12), ":status"@, "400"@),
        is_field(static_entry(13), ":status"@, "404"@),
        is_field(static_entry(14), ":status"@, "500"@),
{
    reveal(static_entry);
    reveal_strlit(":authority");
    reveal_strlit("");
    reveal_strlit(":method");
    reveal_strlit("GET");
    reveal_strlit("POST");
    reveal_strlit(":path");
    reveal_strlit("/");
    reveal_strlit("/index.html");
    reveal_strlit(":scheme");
    reveal_strlit("http");
    reveal_strlit("https");
    reveal_strlit(":status");
    reveal_strlit("200");
    reveal_strlit("204");
    reveal_strlit("206");
    reveal_strlit("304");
    reveal_strlit("400");
    reveal_strlit("404");
    reveal_strlit("500");
    assert(AUTHORITY@ =~= spelled(":authority"@));
    assert(METHOD@ =~= spelled(":method"@));
    assert(GET@ =~= spelled("GET"@));
    assert(METHOD@ =~= spelled(":method"@));
    assert(POST@ =~= spelled("POST"@));
    assert(PATH@ =~= spelled(":path"@));
    assert(SLASH@ =~= spelled("/"@));
    assert(PATH@ =~= spelled(":path"@));
    assert(INDEX_HTML@ =~= spelled("/index.html"@));
    assert(SCHEME@ =~= spelled(":scheme"@));
    assert(HTTP@ =~= spelled("http"@));
    assert(SCHEME@ =~= spelled(":scheme"@));
    assert(HTTPS@ =~= spelled("https"@));
    assert(STATUS@ =~= spelled(":status"@));
    assert(N200@ =~= spelled("200"@));
    assert(STATUS@ =~= spelled(":status"@));
    assert(N204@ =~= spelled("204"@));
    assert(STATUS@ =~= spelled(":status"@));
    assert(N206@ =~= spelled("206"@));
    assert(STATUS@ =~= spelled(":status"@));
    assert(N304@ =~= spelled("304"@));
    assert(STATUS@ =~= spelled(":status"@));
    assert(N400@ =~= spelled("400"@));
    assert(STATUS@ =~= spelled(":status"@));
    assert(N404@ =~= spelled("404"@));
    assert(STATUS@ =~= spelled(":status"@));
    assert(N500@ =~= spelled("500"@));
    assert(Seq::<u8>::empty() =~= spelled(""@));
}

/// Headers follow in the order of their names, from `accept-charset` on.
pub proof fn law_static_headers_from_accept()
    ensures
        is_field(static_entry(15), "accept-charset"@, ""@),
        is_field(static_entry(16), "accept-encoding"@, "gzip, deflate"@),
        is_field(static_entry(17), "accept-language"@, ""@),
        is_field(static_entry(18), "accept-ranges"@, ""@),
        is_field(static_entry(19), "accept"@, ""@),
        is_field(static_entry(20), "access-control-allow-origin"@, ""@),
        is_field(static_entry(21), "age"@, ""@),
        is_field(static_entry(22), "allow"@, ""@),
        is_field(static_entry(23), "authorization"@, ""@),
        is_field(static_entry(24), "cache-control"@, ""@),
        is_field(static_entry(25), "content-disposition"@, ""@),
        is_field(static_entry(26), "content-encoding"@, ""@),
        is_field(static_entry(27), "content-language"@, ""@),
        is_field(static_entry(28), "content-length"@, ""@),
        is_field(static_entry(29), "content-location"@, ""@),
        is_field(static_entry(30), "content-range"@, ""@),
{
    reveal(static_entry);
    reveal_strlit("accept-charset");
    reveal_strlit("");
    reveal_strlit("accept-encoding");
    reveal_strlit("gzip, deflate");
    reveal_strlit("accept-language");
    reveal_strlit("accept-ranges");
    reveal_strlit("accept");
    reveal_strlit("access-control-allow-origin");
    reveal_strlit("age");
    reveal_strlit("allow");
    reveal_strlit("authorization");
    reveal_strlit("cache-control");
    reveal_strlit("content-disposition");
    reveal_strlit("content-encoding");
    reveal_strlit("content-language");
    reveal_strlit("content-length");
    reveal_strlit("content-location");
    reveal_strlit("content-range");
    assert(ACCEPT_CHARSET@ =~= spelled("accept-charset"@));
    assert(ACCEPT_ENCODING@ =~= spelled("accept-encoding"@));
    assert(GZIP_DEFLATE@ =~= spelled("gzip, deflate"@));
    assert(ACCEPT_LANGUAGE@ =~= spelled("accept-language"@));
    assert(ACCEPT_RANGES@ =~= spelled("accept-ranges"@));
    assert(ACCEPT@ =~= spelled("accept"@));
    assert(ACCESS_CONTROL_ALLOW_ORIGIN@ =~= spelled("access-control-allow-origin"@));
    assert(AGE@ =~= spelled("age"@));
    assert(ALLOW@ =~= spelled("allow"@));
    assert(AUTHORIZATION@ =~= spelled("authorization"@));
    assert(CACHE_CONTROL@ =~= spelled("cache-control"@));
    assert(CONTENT_DISPOSITION@ =~= spelled("content-disposition"@));
    assert(CONTENT_ENCODING@ =~= spelled("content-encoding"@));
    assert(CONTENT_LANGUAGE@ =~= spelled("content-language"@));
    assert(CONTENT_LENGTH@ =~= spelled("content-length"@));
    assert(CONTENT_LOCATION@ =~= spelled("content-location"@));
    assert(CONTENT_RANGE@ =~= spelled("content-range"@));
    assert(Seq::<u8>::empty() =~= spelled(""@));
}

/// The headers from `content-type` on.
pub proof fn law_static_headers_from_content_type()
    ensures
        is_field(static_entry(31), "content-type"@, ""@),
        is_field(static_entry(32), "cookie"@, ""@),
        is_field(static_entry(33), "date"@, ""@),
        is_field(static_entry(34), "etag"@, ""@),
        is_field(static_entry(35), "expect"@, ""@),
        is_field(static_entry(36), "expires"@, ""@),
        is_field(static_entry(37), "from"@, ""@),
        is_field(static_entry(38), "host"@, ""@),
        is_field(static_entry(39), "if-match"@, ""@),
        is_field(static_entry(40), "if-modified-since"@, ""@),
        is_field(static_entry(41), "if-none-match"@, ""@),
        is_field(static_entry(42), "if-range"@, ""@),
        is_field(static_entry(43), "if-unmodified-since"@, ""@),
        is_field(static_entry(44), "last-modified"@, ""@),
        is_field(static_entry(45), "link"@, ""@),
        is_field(static_entry(46), "location"@, ""@),
{
    reveal(static_entry);
    reveal_strlit("content-type");
    reveal_strlit("");
    reveal_strlit("cookie");
    reveal_strlit("date");
    reveal_strlit("etag");
    reveal_strlit("expect");
    reveal_strlit("expires");
    reveal_strlit("from");
    reveal_strlit("host");
    reveal_strlit("if-match");
    reveal_strlit("if-modified-since");
    reveal_strlit("if-none-match");
    reveal_strlit("if-range");
    reveal_strlit("if-unmodified-since");
    reveal_strlit("last-modified");
    reveal_strlit("link");
    reveal_strlit("location");
    assert(CONTENT_TYPE@ =~= spelled("content-type"@));
    assert(COOKIE@ =~= spelled("cookie"@));
    assert(DATE@ =~= spelled("date"@));
    assert(ETAG@ =~= spelled("etag"@));
    assert(EXPECT@ =~= spelled("expect"@));
    assert(EXPIRES@ =~= spelled("expires"@));
    assert(FROM@ =~= spelled("from"@));
    assert(HOST@ =~= spelled("host"@));
    assert(IF_MATCH@ =~= spelled("if-match"@));
    assert(IF_MODIFIED_SINCE@ =~= spelled("if-modified-since"@));
    assert(IF_NONE_MATCH@ =~= spelled("if-none-match"@));
    assert(IF_RANGE@ =~= spelled("if-range"@));
    assert(IF_UNMODIFIED_SINCE@ =~= spelled("if-unmodified-since"@));
    assert(LAST_MODIFIED@ =~= spelled("last-modified"@));
    assert(LINK@ =~= spelled("link"@));
    assert(LOCATION@ =~= spelled("location"@));
    assert(Seq::<u8>::empty() =~= spelled(""@));
}

/// The headers from `max-forwards` on.
pub proof fn law_static_headers_from_max_forwards()
    ensures
        is_field(static_entry(47), "max-forwards"@, ""@),
        is_field(static_entry(48), "proxy-authenticate"@, ""@),
        is_field(static_entry(49), "proxy-authorization"@, ""@),
        is_field(static_entry(50), "range"@, ""@),
        is_field(static_entry(51), "referer"@, ""@),
        is_field(static_entry(52), "refresh"@, ""@),
        is_field(static_entry(53), "retry-after"@, ""@),
        is_field(static_entry(54), "server"@, ""@),
        is_field(static_entry(55), "set-cookie"@, ""@),
        is_field(static_entry(56), "strict-transport-security"@, ""@),
        is_field(static_entry(57), "transfer-encoding"@, ""@),
        is_field(static_entry(58), "user-agent"@, ""@),
        is_field(static_entry(59), "vary"@, ""@),
        is_field(static_entry(60), "via"@, ""@),
        is_field(static_entry(61), "www-authenticate"@, ""@),
{
    reveal(static_entry);
    reveal_strlit("max-forwards");
    reveal_strlit("");
    reveal_strlit("proxy-authenticate");
    reveal_strlit("proxy-authorization");
    reveal_strlit("range");
    reveal_strlit("referer");
    reveal_strlit("refresh");
    reveal_strlit("retry-after");
    reveal_strlit("server");
    reveal_strlit("set-cookie");
    reveal_strlit("strict-transport-security");
    reveal_strlit("transfer-encoding");
    reveal_strlit("user-agent");
    reveal_strlit("vary");
    reveal_strlit("via");
    reveal_strlit("www-authenticate");
    assert(MAX_FORWARDS@ =~= spelled("max-forwards"@));
    assert(PROXY_AUTHENTICATE@ =~= spelled("proxy-authenticate"@));
    assert(PROXY_AUTHORIZATION@ =~= spelled("proxy-authorization"@));
    assert(RANGE@ =~= spelled("range"@));
    assert(REFERER@ =~= spelled("referer"@));
    assert(REFRESH@ =~= spelled("refresh"@));
    assert(RETRY_AFTER@ =~= spelled("retry-after"@));
    assert(SERVER@ =~= spelled("server"@));
    assert(SET_COOKIE@ =~= spelled("set-cookie"@));
    assert(STRICT_TRANSPORT_SECURITY@ =~= spelled("strict-transport-security"@));
    assert(TRANSFER_ENCODING@ =~= spelled("transfer-encoding"@));
    assert(USER_AGENT@ =~= spelled("user-agent"@));
    assert(VARY@ =~= spelled("vary"@));
    assert(VIA@ =~= spelled("via"@));
    assert(WWW_AUTHENTICATE@ =~= spelled("www-authenticate"@));
    assert(Seq::<u8>::empty() =~= spelled(""@));
}

} // verus!
