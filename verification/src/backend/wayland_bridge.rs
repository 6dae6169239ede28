use vstd::prelude::*;

verus! {

/// One member of a JSON object, read as the overlay payload needs it:
/// as a signed integer, as an unsigned integer and as a boolean (`None`
/// where it is not one).
#[derive(Debug, Clone, Copy, PartialEq, Eq, Structural)]
pub struct JsonMember {
    pub as_i64: Option<i64>,
    pub as_u64: Option<u64>,
    pub as_bool: Option<bool>,
}

/// What `json_member` gives for `text` and `key`: `None` where
/// `serde_json::from_str::<serde_json::Value>` refuses the text, otherwise
/// the readings of the member `key` of the value read.
pub uninterp spec fn json_member_at(text: Seq<char>, key: Seq<char>) -> Option<JsonMember>;

/// Calls `serde_json::from_str::<serde_json::Value>` on `text`; where it
/// succeeds, indexes the value by `key` (`Value::index`, which gives JSON
/// null for a missing key or a value that is no object) and reads that
/// member with `Value::as_i64`, `Value::as_u64` and `Value::as_bool`. The
/// result is named, not stated: it depends on `text` and `key` alone.
/// That whether the text is accepted does not depend on `key` is left
/// unsaid.
#[verifier::external_body]
fn json_member(text: &str, key: &str) -> (r: Option<JsonMember>)
    ensures
        r == json_member_at(text@, key@),
{
    match serde_json::from_str::<serde_json::Value>(text) {
        Ok(v) => Some(JsonMember { as_i64: v[key].as_i64(), as_u64: v[key].as_u64(), as_bool: v[key].as_bool() }),
        Err(_) => None,
    }
}

/// The readings of the member `key` of the JSON value in `text`, none
/// where the text is no JSON.
pub open spec fn member_or_none(text: Seq<char>, key: Seq<char>) -> JsonMember {
    match json_member_at(text, key) {
        Some(m) => m,
        None => JsonMember { as_i64: None, as_u64: None, as_bool: None },
    }
}

/// The readings of the member `key` of the JSON value in `data`.
fn read_member(data: &str, key: &str) -> (r: JsonMember)
    ensures
        r == member_or_none(data@, key@),
{
    match json_member(data, key) {
        Some(m) => m,
        None => JsonMember { as_i64: None, as_u64: None, as_bool: None },
    }
}

/// Where the compositor script asks the overlay to be drawn.
#[derive(Debug, Clone, Copy, PartialEq, Eq, Structural)]
pub struct OverlayRequest {
    pub x: i32,
    pub y: i32,
    pub w: u32,
    pub h: u32,
    pub screen_w: u32,
    pub screen_h: u32,
    pub blocked: bool,
}

/// The request built from the fields of the payload: a missing position is
/// 0, a missing size 100 and a size below 1 is 1, a missing screen size 0,
/// a missing `blocked` false; numbers are then cut to the field's width
/// (`as` casts).
pub open spec fn overlay_request_spec(
    x: Option<i64>,
    y: Option<i64>,
    w: Option<i64>,
    h: Option<i64>,
    screen_w: Option<u64>,
    screen_h: Option<u64>,
    blocked: Option<bool>,
) -> OverlayRequest {
    let wv = match w {
        Some(v) => v,
        None => 100,
    };
    let hv = match h {
        Some(v) => v,
        None => 100,
    };
    OverlayRequest {
        x: (match x {
            Some(v) => v,
            None => 0,
        }) as i32,
        y: (match y {
            Some(v) => v,
            None => 0,
        }) as i32,
        w: (if wv >= 1 {
            wv
        } else {
            1
        }) as u32,
        h: (if hv >= 1 {
            hv
        } else {
            1
        }) as u32,
        screen_w: (match screen_w {
            Some(v) => v,
            None => 0,
        }) as u32,
        screen_h: (match screen_h {
            Some(v) => v,
            None => 0,
        }) as u32,
        blocked: match blocked {
            Some(b) => b,
            None => false,
        },
    }
}

/// Builds the overlay request from the payload's fields.
pub fn overlay_request_from_fields(
    x: Option<i64>,
    y: Option<i64>,
    w: Option<i64>,
    h: Option<i64>,
    screen_w: Option<u64>,
    screen_h: Option<u64>,
    blocked: Option<bool>,
) -> (r: OverlayRequest)
    ensures
        r == overlay_request_spec(x, y, w, h, screen_w, screen_h, blocked),
{
    let xv: i64 = match x {
        Some(v) => v,
        None => 0,
    };
    let yv: i64 = match y {
        Some(v) => v,
        None => 0,
    };
    let wv: i64 = match w {
        Some(v) => v,
        None => 100,
    };
    let hv: i64 = match h {
        Some(v) => v,
        None => 100,
    };
    let wv: i64 = if wv >= 1 { wv } else { 1 };
    let hv: i64 = if hv >= 1 { hv } else { 1 };
    let sw: u64 = match screen_w {
        Some(v) => v,
        None => 0,
    };
    let sh: u64 = match screen_h {
        Some(v) => v,
        None => 0,
    };
    let blocked: bool = match blocked {
        Some(b) => b,
        None => false,
    };
    OverlayRequest {
        x: #[verifier::truncate] (xv as i32),
        y: #[verifier::truncate] (yv as i32),
        w: #[verifier::truncate] (wv as u32),
        h: #[verifier::truncate] (hv as u32),
        screen_w: #[verifier::truncate] (sw as u32),
        screen_h: #[verifier::truncate] (sh as u32),
        blocked,
    }
}

/// The request that the payload `text` asks for, or `None` where the text
/// is no JSON: each field is read from the member of the same name
/// (`screenW` and `screenH` for the screen size).
pub open spec fn overlay_payload_spec(text: Seq<char>) -> Option<OverlayRequest> {
    match json_member_at(text, "x"@) {
        None => None,
        Some(x) => Some(
            overlay_request_spec(
                x.as_i64,
                member_or_none(text, "y"@).as_i64,
                member_or_none(text, "w"@).as_i64,
                member_or_none(text, "h"@).as_i64,
                member_or_none(text, "screenW"@).as_u64,
                member_or_none(text, "screenH"@).as_u64,
                member_or_none(text, "blocked"@).as_bool,
            ),
        ),
    }
}

/// Reads the JSON payload `{"x":…,"y":…,"w":…,"h":…,"screenW":…,"screenH":…,"blocked":…}`
/// that the compositor script sends with a request to show the overlay.
/// `None` exactly when the payload is not JSON; otherwise the request built
/// from the members found.
pub fn parse_overlay_payload(data: &str) -> (r: Option<OverlayRequest>)
    ensures
        r == overlay_payload_spec(data@),
{
    match json_member(data, "x") {
        None => None,
        Some(x) => {
            let y = read_member(data, "y");
            let w = read_member(data, "w");
            let h = read_member(data, "h");
            let sw = read_member(data, "screenW");
            let sh = read_member(data, "screenH");
            let blocked = read_member(data, "blocked");
            Some(
                overlay_request_from_fields(
                    x.as_i64,
                    y.as_i64,
                    w.as_i64,
                    h.as_i64,
                    sw.as_u64,
                    sh.as_u64,
                    blocked.as_bool,
                ),
            )
        },
    }
}

/// What each field of a parsed overlay request is, read off the payload's
/// members directly: no request where the payload is no JSON; otherwise
/// an integer member that fits in `i32` is the position as it stands,
/// negative ones included, and a missing or non-integer one is 0; a size
/// member from 1 to `u32::MAX` is the size, a smaller integer gives 1 and
/// a missing one 100; an unsigned screen size that fits in `u32` is taken
/// as it stands and a missing one is 0; `blocked` is the member's boolean,
/// false where it has none.
pub proof fn lemma_overlay_payload_fields(text: Seq<char>)
    ensures
        json_member_at(text, "x"@) is None ==> overlay_payload_spec(text) is None,
        json_member_at(text, "x"@) matches Some(mx) ==> {
            let q = overlay_payload_spec(text)->0;
            &&& overlay_payload_spec(text) is Some
            &&& mx.as_i64 matches Some(v) ==> (i32::MIN <= v <= i32::MAX ==> q.x == v)
            &&& mx.as_i64 is None ==> q.x == 0
            &&& json_member_at(text, "y"@) matches Some(m) ==> (m.as_i64 matches Some(v) ==> (i32::MIN <= v <= i32::MAX
                ==> q.y == v))
            &&& (json_member_at(text, "y"@) is None || json_member_at(text, "y"@)->0.as_i64 is None)
                ==> q.y == 0
            &&& json_member_at(text, "w"@) matches Some(m) ==> (m.as_i64 matches Some(v) ==> (1 <= v <= u32::MAX
                ==> q.w == v))
            &&& json_member_at(text, "w"@) matches Some(m) ==> (m.as_i64 matches Some(v) ==> (v < 1
                ==> q.w == 1))
            &&& (json_member_at(text, "w"@) is None || json_member_at(text, "w"@)->0.as_i64 is None)
                ==> q.w == 100
            &&& json_member_at(text, "h"@) matches Some(m) ==> (m.as_i64 matches Some(v) ==> (1 <= v <= u32::MAX
                ==> q.h == v))
            &&& json_member_at(text, "h"@) matches Some(m) ==> (m.as_i64 matches Some(v) ==> (v < 1
                ==> q.h == 1))
            &&& (json_member_at(text, "h"@) is None || json_member_at(text, "h"@)->0.as_i64 is None)
                ==> q.h == 100
            &&& json_member_at(text, "screenW"@) matches Some(m) ==> (m.as_u64 matches Some(v) ==> (v <= u32::MAX
                ==> q.screen_w == v))
            &&& (json_member_at(text, "screenW"@) is None || json_member_at(
                text,
                "screenW"@,
            )->0.as_u64 is None) ==> q.screen_w == 0
            &&& json_member_at(text, "screenH"@) matches Some(m) ==> (m.as_u64 matches Some(v) ==> (v <= u32::MAX
                ==> q.screen_h == v))
            &&& (json_member_at(text, "screenH"@) is None || json_member_at(
                text,
                "screenH"@,
            )->0.as_u64 is None) ==> q.screen_h == 0
            &&& json_member_at(text, "blocked"@) matches Some(m) ==> (m.as_bool matches Some(v) ==> (true
                ==> q.blocked == v))
            &&& (json_member_at(text, "blocked"@) is None || json_member_at(
                text,
                "blocked"@,
            )->0.as_bool is None) ==> !q.blocked
        },
{
}

} // verus!
