//! Texts with a meaning in HTTP/2, as bytes.

use vstd::prelude::*;

verus! {

/// `:authority`
pub const AUTHORITY: [u8; 10] = [58, 97, 117, 116, 104, 111, 114, 105, 116, 121];

/// `:method`
pub const METHOD: [u8; 7] = [58, 109, 101, 116, 104, 111, 100];

/// `:path`
pub const PATH: [u8; 5] = [58, 112, 97, 116, 104];

/// `:scheme`
pub const SCHEME: [u8; 7] = [58, 115, 99, 104, 101, 109, 101];

/// `:status`
pub const STATUS: [u8; 7] = [58, 115, 116, 97, 116, 117, 115];

/// `accept-charset`
pub const ACCEPT_CHARSET: [u8; 14] = [
    97, 99, 99, 101, 112, 116, 45, 99, 104, 97, 114, 115, 101, 116,
];

/// `accept-encoding`
pub const ACCEPT_ENCODING: [u8; 15] = [
    97, 99, 99, 101, 112, 116, 45, 101, 110, 99, 111, 100, 105, 110, 103,
];

/// `accept-language`
pub const ACCEPT_LANGUAGE: [u8; 15] = [
    97, 99, 99, 101, 112, 116, 45, 108, 97, 110, 103, 117, 97, 103, 101,
];

/// `accept-ranges`
pub const ACCEPT_RANGES: [u8; 13] = [97, 99, 99, 101, 112, 116, 45, 114, 97, 110, 103, 101, 115];

/// `accept`
pub const ACCEPT: [u8; 6] = [97, 99, 99, 101, 112, 116];

/// `access-control-allow-origin`
pub const ACCESS_CONTROL_ALLOW_ORIGIN: [u8; 27] = [
    97, 99, 99, 101, 115, 115, 45, 99, 111, 110, 116, 114, 111, 108, 45, 97, 108, 108, 111, 119,
    45, 111, 114, 105, 103, 105, 110,
];

/// `age`
pub const AGE: [u8; 3] = [97, 103, 101];

/// `allow`
pub const ALLOW: [u8; 5] = [97, 108, 108, 111, 119];

/// `authorization`
pub const AUTHORIZATION: [u8; 13] = [97, 117, 116, 104, 111, 114, 105, 122, 97, 116, 105, 111, 110];

/// `cache-control`
pub const CACHE_CONTROL: [u8; 13] = [99, 97, 99, 104, 101, 45, 99, 111, 110, 116, 114, 111, 108];

/// `content-disposition`
pub const CONTENT_DISPOSITION: [u8; 19] = [
    99, 111, 110, 116, 101, 110, 116, 45, 100, 105, 115, 112, 111, 115, 105, 116, 105, 111, 110,
];

/// `content-encoding`
pub const CONTENT_ENCODING: [u8; 16] = [
    99, 111, 110, 116, 101, 110, 116, 45, 101, 110, 99, 111, 100, 105, 110, 103,
];

/// `content-language`
pub const CONTENT_LANGUAGE: [u8; 16] = [
    99, 111, 110, 116, 101, 110, 116, 45, 108, 97, 110, 103, 117, 97, 103, 101,
];

/// `content-length`
pub const CONTENT_LENGTH: [u8; 14] = [
    99, 111, 110, 116, 101, 110, 116, 45, 108, 101, 110, 103, 116, 104,
];

/// `content-location`
pub const CONTENT_LOCATION: [u8; 16] = [
    99, 111, 110, 116, 101, 110, 116, 45, 108, 111, 99, 97, 116, 105, 111, 110,
];

/// `content-range`
pub const CONTENT_RANGE: [u8; 13] = [99, 111, 110, 116, 101, 110, 116, 45, 114, 97, 110, 103, 101];

/// `content-type`
pub const CONTENT_TYPE: [u8; 12] = [99, 111, 110, 116, 101, 110, 116, 45, 116, 121, 112, 101];

/// `cookie`
pub const COOKIE: [u8; 6] = [99, 111, 111, 107, 105, 101];

/// `date`
pub const DATE: [u8; 4] = [100, 97, 116, 101];

/// `etag`
pub const ETAG: [u8; 4] = [101, 116, 97, 103];

/// `expect`
pub const EXPECT: [u8; 6] = [101, 120, 112, 101, 99, 116];

/// `expires`
pub const EXPIRES: [u8; 7] = [101, 120, 112, 105, 114, 101, 115];

/// `from`
pub const FROM: [u8; 4] = [102, 114, 111, 109];

/// `host`
pub const HOST: [u8; 4] = [104, 111, 115, 116];

/// `if-match`
pub const IF_MATCH: [u8; 8] = [105, 102, 45, 109, 97, 116, 99, 104];

/// `if-modified-since`
pub const IF_MODIFIED_SINCE: [u8; 17] = [
    105, 102, 45, 109, 111, 100, 105, 102, 105, 101, 100, 45, 115, 105, 110, 99, 101,
];

/// `if-none-match`
pub const IF_NONE_MATCH: [u8; 13] = [105, 102, 45, 110, 111, 110, 101, 45, 109, 97, 116, 99, 104];

/// `if-range`
pub const IF_RANGE: [u8; 8] = [105, 102, 45, 114, 97, 110, 103, 101];

/// `if-unmodified-since`
pub const IF_UNMODIFIED_SINCE: [u8; 19] = [
    105, 102, 45, 117, 110, 109, 111, 100, 105, 102, 105, 101, 100, 45, 115, 105, 110, 99, 101,
];

/// `last-modified`
pub const LAST_MODIFIED: [u8; 13] = [108, 97, 115, 116, 45, 109, 111, 100, 105, 102, 105, 101, 100];

/// `link`
pub const LINK: [u8; 4] = [108, 105, 110, 107];

/// `location`
pub const LOCATION: [u8; 8] = [108, 111, 99, 97, 116, 105, 111, 110];

/// `max-forwards`
pub const MAX_FORWARDS: [u8; 12] = [109, 97, 120, 45, 102, 111, 114, 119, 97, 114, 100, 115];

/// `proxy-authenticate`
pub const PROXY_AUTHENTICATE: [u8; 18] = [
    112, 114, 111, 120, 121, 45, 97, 117, 116, 104, 101, 110, 116, 105, 99, 97, 116, 101,
];

/// `proxy-authorization`
pub const PROXY_AUTHORIZATION: [u8; 19] = [
    112, 114, 111, 120, 121, 45, 97, 117, 116, 104, 111, 114, 105, 122, 97, 116, 105, 111, 110,
];

/// `range`
pub const RANGE: [u8; 5] = [114, 97, 110, 103, 101];

/// `referer`
pub const REFERER: [u8; 7] = [114, 101, 102, 101, 114, 101, 114];

/// `refresh`
pub const REFRESH: [u8; 7] = [114, 101, 102, 114, 101, 115, 104];

/// `retry-after`
pub const RETRY_AFTER: [u8; 11] = [114, 101, 116, 114, 121, 45, 97, 102, 116, 101, 114];

/// `server`
pub const SERVER: [u8; 6] = [115, 101, 114, 118, 101, 114];

/// `set-cookie`
pub const SET_COOKIE: [u8; 10] = [115, 101, 116, 45, 99, 111, 111, 107, 105, 101];

/// `strict-transport-security`
pub const STRICT_TRANSPORT_SECURITY: [u8; 25] = [
    115, 116, 114, 105, 99, 116, 45, 116, 114, 97, 110, 115, 112, 111, 114, 116, 45, 115, 101, 99,
    117, 114, 105, 116, 121,
];

/// `transfer-encoding`
pub const TRANSFER_ENCODING: [u8; 17] = [
    116, 114, 97, 110, 115, 102, 101, 114, 45, 101, 110, 99, 111, 100, 105, 110, 103,
];

/// `user-agent`
pub const USER_AGENT: [u8; 10] = [117, 115, 101, 114, 45, 97, 103, 101, 110, 116];

/// `vary`
pub const VARY: [u8; 4] = [118, 97, 114, 121];

/// `via`
pub const VIA: [u8; 3] = [118, 105, 97];

/// `www-authenticate`
pub const WWW_AUTHENTICATE: [u8; 16] = [
    119, 119, 119, 45, 97, 117, 116, 104, 101, 110, 116, 105, 99, 97, 116, 101,
];

/// `GET`
pub const GET: [u8; 3] = [71, 69, 84];

/// `POST`
pub const POST: [u8; 4] = [80, 79, 83, 84];

/// `/`
pub const SLASH: [u8; 1] = [47];

/// `/index.html`
pub const INDEX_HTML: [u8; 11] = [47, 105, 110, 100, 101, 120, 46, 104, 116, 109, 108];

/// `http`
pub const HTTP: [u8; 4] = [104, 116, 116, 112];

/// `https`
pub const HTTPS: [u8; 5] = [104, 116, 116, 112, 115];

/// `200`
pub const N200: [u8; 3] = [50, 48, 48];

/// `204`
pub const N204: [u8; 3] = [50, 48, 52];

/// `206`
pub const N206: [u8; 3] = [50, 48, 54];

/// `304`
pub const N304: [u8; 3] = [51, 48, 52];

/// `400`
pub const N400: [u8; 3] = [52, 48, 48];

/// `404`
pub const N404: [u8; 3] = [52, 48, 52];

/// `500`
pub const N500: [u8; 3] = [53, 48, 48];

/// `gzip, deflate`
pub const GZIP_DEFLATE: [u8; 13] = [103, 122, 105, 112, 44, 32, 100, 101, 102, 108, 97, 116, 101];

/// `:protocol`
pub const PROTOCOL: [u8; 9] = [58, 112, 114, 111, 116, 111, 99, 111, 108];

/// `connection`
pub const CONNECTION: [u8; 10] = [99, 111, 110, 110, 101, 99, 116, 105, 111, 110];

/// `upgrade`
pub const UPGRADE: [u8; 7] = [117, 112, 103, 114, 97, 100, 101];

/// `keep-alive`
pub const KEEP_ALIVE: [u8; 10] = [107, 101, 101, 112, 45, 97, 108, 105, 118, 101];

/// `proxy-connection`
pub const PROXY_CONNECTION: [u8; 16] = [
    112, 114, 111, 120, 121, 45, 99, 111, 110, 110, 101, 99, 116, 105, 111, 110,
];

/// `te`
pub const TE: [u8; 2] = [116, 101];

/// `trailers`
pub const TRAILERS: [u8; 8] = [116, 114, 97, 105, 108, 101, 114, 115];

/// `CONNECT`
pub const CONNECT: [u8; 7] = [67, 79, 78, 78, 69, 67, 84];

/// `OPTIONS`
pub const OPTIONS: [u8; 7] = [79, 80, 84, 73, 79, 78, 83];

/// `HEAD`
pub const HEAD: [u8; 4] = [72, 69, 65, 68];

/// `too_many_continuations`
pub const TOO_MANY_CONTINUATIONS: [u8; 22] = [
    116, 111, 111, 95, 109, 97, 110, 121, 95, 99, 111, 110, 116, 105, 110, 117, 97, 116, 105, 111,
    110, 115,
];

/// `header_list_way_too_large`
pub const HEADER_LIST_WAY_TOO_LARGE: [u8; 25] = [
    104, 101, 97, 100, 101, 114, 95, 108, 105, 115, 116, 95, 119, 97, 121, 95, 116, 111, 111, 95,
    108, 97, 114, 103, 101,
];

/// `too_many_resets`
pub const TOO_MANY_RESETS: [u8; 15] = [
    116, 111, 111, 95, 109, 97, 110, 121, 95, 114, 101, 115, 101, 116, 115,
];

/// `too_many_internal_resets`
pub const TOO_MANY_INTERNAL_RESETS: [u8; 24] = [
    116, 111, 111, 95, 109, 97, 110, 121, 95, 105, 110, 116, 101, 114, 110, 97, 108, 95, 114, 101,
    115, 101, 116, 115,
];

/// What a client starts a connection with.
pub const PREFACE: [u8; 24] = [
    80, 82, 73, 32, 42, 32, 72, 84, 84, 80, 47, 50, 46, 48, 13, 10, 13, 10, 83,
    77, 13, 10, 13, 10,
];

/// The bytes of a text.
pub open spec fn spelled(text: Seq<char>) -> Seq<u8> {
    text.map_values(|c: char| c as u8)
}

/// The names and texts that stand in no table.
pub proof fn law_texts()
    ensures
        PROTOCOL@ == spelled(":protocol"@),
        CONNECTION@ == spelled("connection"@),
        UPGRADE@ == spelled("upgrade"@),
        KEEP_ALIVE@ == spelled("keep-alive"@),
        PROXY_CONNECTION@ == spelled("proxy-connection"@),
        TE@ == spelled("te"@),
        TRAILERS@ == spelled("trailers"@),
        CONNECT@ == spelled("CONNECT"@),
        OPTIONS@ == spelled("OPTIONS"@),
        HEAD@ == spelled("HEAD"@),
        TOO_MANY_CONTINUATIONS@ == spelled("too_many_continuations"@),
        HEADER_LIST_WAY_TOO_LARGE@ == spelled("header_list_way_too_large"@),
        TOO_MANY_RESETS@ == spelled("too_many_resets"@),
        TOO_MANY_INTERNAL_RESETS@ == spelled("too_many_internal_resets"@),
        PREFACE@ == spelled("PRI * HTTP/2.0\r\n\r\nSM\r\n\r\n"@),
{
    reveal_strlit(":protocol");
    reveal_strlit("connection");
    reveal_strlit("upgrade");
    reveal_strlit("keep-alive");
    reveal_strlit("proxy-connection");
    reveal_strlit("te");
    reveal_strlit("trailers");
    reveal_strlit("CONNECT");
    reveal_strlit("OPTIONS");
    reveal_strlit("HEAD");
    reveal_strlit("too_many_continuations");
    reveal_strlit("header_list_way_too_large");
    reveal_strlit("too_many_resets");
    reveal_strlit("too_many_internal_resets");
    reveal_strlit("PRI * HTTP/2.0\r\n\r\nSM\r\n\r\n");
    assert(PROTOCOL@ =~= spelled(":protocol"@));
    assert(CONNECTION@ =~= spelled("connection"@));
    assert(UPGRADE@ =~= spelled("upgrade"@));
    assert(KEEP_ALIVE@ =~= spelled("keep-alive"@));
    assert(PROXY_CONNECTION@ =~= spelled("proxy-connection"@));
    assert(TE@ =~= spelled("te"@));
    assert(TRAILERS@ =~= spelled("trailers"@));
    assert(CONNECT@ =~= spelled("CONNECT"@));
    assert(OPTIONS@ =~= spelled("OPTIONS"@));
    assert(HEAD@ =~= spelled("HEAD"@));
    assert(TOO_MANY_CONTINUATIONS@ =~= spelled("too_many_continuations"@));
    assert(HEADER_LIST_WAY_TOO_LARGE@ =~= spelled("header_list_way_too_large"@));
    assert(TOO_MANY_RESETS@ =~= spelled("too_many_resets"@));
    assert(TOO_MANY_INTERNAL_RESETS@ =~= spelled("too_many_internal_resets"@));
    assert(PREFACE@ =~= spelled("PRI * HTTP/2.0\r\n\r\nSM\r\n\r\n"@));
}

} // verus!
