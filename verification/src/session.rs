//! Session plumbing around the remote service: user settings, the session
//! cookies and their text forms, the client handles, the timetable cache's
//! decision logic, and one-time-password tokens.
use vstd::prelude::*;
use crate::text::{chars_eq_str, chars_to_string, to_chars};

verus! {

/// The user's stored settings.
#[derive(Clone, Debug)]
pub struct Settings {
    pub school_name: String,
    pub username: String,
    pub auth_secret: String,
}

pub ghost struct SettingsView {
    pub school_name: Seq<char>,
    pub username: Seq<char>,
    pub auth_secret: Seq<char>,
}

impl View for Settings {
    type V = SettingsView;

    open spec fn view(&self) -> SettingsView {
        SettingsView {
            school_name: self.school_name@,
            username: self.username@,
            auth_secret: self.auth_secret@,
        }
    }
}

/// Which account a set of credentials signs into: the timetable service or
/// the canteen service.
#[derive(Clone, Copy, PartialEq, Eq, Structural, Debug)]
pub enum AuthType {
    Untis,
    Book2Eat,
}

/// The school identifier of the stored settings.
pub fn school_name(settings: &Settings) -> (r: String)
    ensures
        r@ == settings@.school_name,
{
    settings.school_name.clone()
}

// ------------------------------------------------------------------
// Cookie text
// ------------------------------------------------------------------

/// The session cookies of the remote service.
#[derive(Clone, Debug)]
pub struct Cookies {
    pub jsessionid: String,
    pub tenant_id: String,
    pub school_name_base32: String,
}

pub ghost struct CookiesView {
    pub jsessionid: Seq<char>,
    pub tenant_id: Seq<char>,
    pub school_name_base32: Seq<char>,
}

impl View for Cookies {
    type V = CookiesView;

    open spec fn view(&self) -> CookiesView {
        CookiesView {
            jsessionid: self.jsessionid@,
            tenant_id: self.tenant_id@,
            school_name_base32: self.school_name_base32@,
        }
    }
}

/// First position of a character, or -1.
pub open spec fn find_char(s: Seq<char>, c: char) -> int
    decreases s.len(),
{
    if s.len() == 0 {
        -1
    } else if s[0] == c {
        0
    } else if find_char(s.drop_first(), c) < 0 {
        -1
    } else {
        1 + find_char(s.drop_first(), c)
    }
}

proof fn lemma_find_char_props(s: Seq<char>, c: char)
    ensures
        -1 <= find_char(s, c) < s.len(),
        find_char(s, c) >= 0 ==> s[find_char(s, c)] == c,
        find_char(s, c) < 0 ==> forall|k: int| 0 <= k < s.len() ==> s[k] != c,
        forall|k: int| 0 <= k < find_char(s, c) ==> s[k] != c,
    decreases s.len(),
{
    if s.len() > 0 && s[0] != c {
        lemma_find_char_props(s.drop_first(), c);
        let f = find_char(s, c);
        if find_char(s.drop_first(), c) < 0 {
            assert forall|k: int| 0 <= k < s.len() implies s[k] != c by {
                if k > 0 {
                    assert(s.drop_first()[k - 1] != c);
                }
            }
        } else {
            assert(s[f] == s.drop_first()[f - 1]);
            assert forall|k: int| 0 <= k < f implies s[k] != c by {
                if k > 0 {
                    assert(s.drop_first()[k - 1] != c);
                }
            }
        }
    }
}

/// Split a string at every ';'.
pub open spec fn split_semi(s: Seq<char>) -> Seq<Seq<char>>
    decreases s.len(),
{
    let f = find_char(s, ';');
    if f < 0 || f >= s.len() {
        seq![s]
    } else {
        seq![s.take(f)] + split_semi(s.skip(f + 1))
    }
}

pub open spec fn is_space(c: char) -> bool {
    c == ' ' || c == '\t' || c == '\r' || c == '\n'
}

/// Drop leading blanks.
pub open spec fn trim_start(s: Seq<char>) -> Seq<char>
    decreases s.len(),
{
    if s.len() > 0 && is_space(s[0]) {
        trim_start(s.drop_first())
    } else {
        s
    }
}

/// Drop trailing blanks.
pub open spec fn trim_end(s: Seq<char>) -> Seq<char>
    decreases s.len(),
{
    if s.len() > 0 && is_space(s.last()) {
        trim_end(s.drop_last())
    } else {
        s
    }
}

/// Drop blanks on both sides.
pub open spec fn trimmed(s: Seq<char>) -> Seq<char> {
    trim_end(trim_start(s))
}

/// The text before the first '=', or the whole piece.
pub open spec fn key_of(part: Seq<char>) -> Seq<char> {
    if find_char(part, '=') < 0 {
        part
    } else {
        part.take(find_char(part, '='))
    }
}

/// The text after the first '=', or nothing.
pub open spec fn val_of(part: Seq<char>) -> Seq<char> {
    if find_char(part, '=') < 0 {
        Seq::empty()
    } else {
        part.skip(find_char(part, '=') + 1)
    }
}

/// The value of the last cookie whose trimmed key matches, trimmed.
pub open spec fn cookie_lookup(parts: Seq<Seq<char>>, key: Seq<char>) -> Option<Seq<char>>
    decreases parts.len(),
{
    if parts.len() == 0 {
        None
    } else if trimmed(key_of(parts.last())) == key {
        Some(trimmed(val_of(parts.last())))
    } else {
        cookie_lookup(parts.drop_last(), key)
    }
}

/// What a raw cookie header parses to: all three session cookies, or
/// nothing.
pub open spec fn cookies_spec(s: Seq<char>) -> Option<CookiesView> {
    let parts = split_semi(s);
    match (
        cookie_lookup(parts, "JSESSIONID"@),
        cookie_lookup(parts, "Tenant-Id"@),
        cookie_lookup(parts, "schoolname"@),
    ) {
        (Some(j), Some(t), Some(n)) => Some(
            CookiesView { jsessionid: j, tenant_id: t, school_name_base32: n },
        ),
        _ => None,
    }
}

proof fn lemma_trim_start_at(s: Seq<char>, a: int)
    requires
        0 <= a <= s.len(),
        forall|k: int| 0 <= k < a ==> is_space(s[k]),
        a < s.len() ==> !is_space(s[a]),
    ensures
        trim_start(s) == s.skip(a),
    decreases a,
{
    if a == 0 {
        assert(s.skip(0) =~= s);
    } else {
        assert(is_space(s[0]));
        assert forall|k: int| 0 <= k < a - 1 implies is_space(s.drop_first()[k]) by {
            assert(is_space(s[k + 1]));
        }
        lemma_trim_start_at(s.drop_first(), a - 1);
        assert(s.drop_first().skip(a - 1) =~= s.skip(a));
    }
}

proof fn lemma_trim_end_at(s: Seq<char>, b: int)
    requires
        0 <= b <= s.len(),
        forall|k: int| b <= k < s.len() ==> is_space(s[k]),
        b > 0 ==> !is_space(s[b - 1]),
    ensures
        trim_end(s) == s.take(b),
    decreases s.len() - b,
{
    if b == s.len() {
        assert(s.take(b) =~= s);
    } else {
        assert(is_space(s.last()));
        assert forall|k: int| b <= k < s.drop_last().len() implies is_space(s.drop_last()[k]) by {
            assert(is_space(s[k]));
        }
        lemma_trim_end_at(s.drop_last(), b);
        assert(s.drop_last().take(b) =~= s.take(b));
    }
}

fn is_space_exec(c: char) -> (r: bool)
    ensures
        r == is_space(c),
{
    c == ' ' || c == '\t' || c == '\r' || c == '\n'
}

/// Trim blanks from both ends of a character vector.
fn trim_chars(v: &Vec<char>) -> (r: Vec<char>)
    ensures
        r@ == trimmed(v@),
{
    let mut a: usize = 0;
    while a < v.len() && is_space_exec(v[a])
        invariant
            a <= v.len(),
            forall|k: int| 0 <= k < a ==> is_space(v@[k]),
        decreases v.len() - a,
    {
        a += 1;
    }
    proof {
        lemma_trim_start_at(v@, a as int);
    }
    let ghost t1 = v@.skip(a as int);
    let mut b: usize = v.len();
    while b > a && is_space_exec(v[b - 1])
        invariant
            a <= b <= v.len(),
            t1 == v@.skip(a as int),
            forall|k: int| b <= k < v.len() ==> is_space(v@[k]),
        decreases b,
    {
        b -= 1;
    }
    proof {
        assert forall|k: int| b - a <= k < t1.len() implies is_space(t1[k]) by {
            assert(t1[k] == v@[k + a]);
        }
        if b > a {
            assert(!is_space(v@[b - 1]));
            assert(t1[b - a - 1] == v@[b - 1]);
        }
        lemma_trim_end_at(t1, b - a);
    }
    let mut r: Vec<char> = Vec::new();
    let mut i: usize = a;
    proof {
        assert(r@ =~= v@.subrange(a as int, a as int));
    }
    while i < b
        invariant
            a <= i <= b <= v.len(),
            r@ == v@.subrange(a as int, i as int),
        decreases b - i,
    {
        r.push(v[i]);
        proof {
            assert(r@ =~= v@.subrange(a as int, i + 1));
        }
        i += 1;
    }
    proof {
        assert(t1.take(b - a) =~= v@.subrange(a as int, b as int));
        assert(r@ =~= trimmed(v@));
    }
    r
}

/// Split a character vector at every ';'.
fn split_semi_exec(v: &Vec<char>) -> (r: Vec<Vec<char>>)
    ensures
        r.deep_view() == split_semi(v@),
{
    let mut parts: Vec<Vec<char>> = Vec::new();
    let mut p: usize = 0;
    proof {
        assert(v@.skip(0) =~= v@);
        assert(parts.deep_view() =~= Seq::<Seq<char>>::empty());
        assert(parts.deep_view() + split_semi(v@) =~= split_semi(v@));
    }
    loop
        invariant
            p <= v.len(),
            v@.len() == v.len(),
            split_semi(v@) == parts.deep_view() + split_semi(v@.skip(p as int)),
        decreases v.len() - p,
    {
        let mut j: usize = p;
        while j < v.len() && v[j] != ';'
            invariant
                p <= j <= v.len(),
                forall|k: int| p <= k < j ==> v@[k] != ';',
            decreases v.len() - j,
        {
            j += 1;
        }
        let mut seg: Vec<char> = Vec::new();
        let mut i: usize = p;
        proof {
            assert(seg@ =~= v@.subrange(p as int, p as int));
        }
        while i < j
            invariant
                p <= i <= j <= v.len(),
                seg@ == v@.subrange(p as int, i as int),
            decreases j - i,
        {
            seg.push(v[i]);
            proof {
                assert(seg@ =~= v@.subrange(p as int, i + 1));
            }
            i += 1;
        }
        let ghost rest = v@.skip(p as int);
        proof {
            assert forall|k: int| 0 <= k < j - p implies rest[k] != ';' by {
                assert(rest[k] == v@[k + p]);
            }
            if j < v.len() {
                assert(rest[j - p] == v@[j as int]);
            }
            lemma_find_char_props(rest, ';');
            assert(find_char(rest, ';') == if j < v.len() {
                j - p
            } else {
                -1
            }) by {
                let f = find_char(rest, ';');
                if j < v.len() {
                    if f < 0 {
                        assert(rest[j - p] != ';');
                    } else if f < j - p {
                        assert(rest[f] != ';');
                    } else if f > j - p {
                        assert(rest[j - p] != ';');
                    }
                } else {
                    if f >= 0 {
                        assert(rest[f] == ';');
                        assert(rest[f] == v@[f + p]);
                    }
                }
            }
        }
        let ghost prev_parts = parts.deep_view();
        let ghost segv = seg@;
        if j < v.len() {
            parts.push(seg);
            proof {
                assert forall|k: int| 0 <= k < parts.deep_view().len() implies parts.deep_view()[k]
                    == prev_parts.push(segv)[k] by {
                    if k < prev_parts.len() {
                        assert(parts@[k] == parts@.drop_last()[k]);
                    } else {
                        assert(parts@[k] == parts@.last());
                    }
                }
                assert(parts.deep_view() =~= prev_parts.push(segv));
                assert(parts.deep_view() =~= prev_parts.push(v@.subrange(p as int, j as int)));
                assert(rest.take(j - p) =~= v@.subrange(p as int, j as int));
                assert(rest.skip(j - p + 1) =~= v@.skip(j + 1));
                assert(split_semi(rest) == seq![rest.take(j - p)] + split_semi(rest.skip(j - p
                    + 1)));
                assert(parts.deep_view() + split_semi(v@.skip(j + 1)) =~= prev_parts + split_semi(
                    rest,
                ));
            }
            p = j + 1;
        } else {
            parts.push(seg);
            proof {
                assert forall|k: int| 0 <= k < parts.deep_view().len() implies parts.deep_view()[k]
                    == prev_parts.push(segv)[k] by {
                    if k < prev_parts.len() {
                        assert(parts@[k] == parts@.drop_last()[k]);
                    } else {
                        assert(parts@[k] == parts@.last());
                    }
                }
                assert(parts.deep_view() =~= prev_parts.push(segv));
                assert(parts.deep_view() =~= prev_parts.push(v@.subrange(p as int, j as int)));
                assert(rest =~= v@.subrange(p as int, j as int));
                assert(split_semi(rest) == seq![rest]);
                assert(parts.deep_view() =~= prev_parts + split_semi(rest));
                assert(parts.deep_view() =~= split_semi(v@));
            }
            return parts;
        }
    }
}

/// Parse a raw cookie header into the three session cookies.  The value of
/// the last occurrence of each cookie name wins; all three must be present.
pub fn get_cookies(raw: &str) -> (r: Option<Cookies>)
    ensures
        r matches Some(c) ==> cookies_spec(raw@) == Some(c@),
        r is None ==> cookies_spec(raw@) is None,
{
    let chars = to_chars(raw);
    let parts = split_semi_exec(&chars);
    let ghost pv = parts.deep_view();
    let mut jsessionid: Option<Vec<char>> = None;
    let mut tenant_id: Option<Vec<char>> = None;
    let mut school: Option<Vec<char>> = None;
    let mut i: usize = 0;
    proof {
        assert(pv.take(0) =~= Seq::<Seq<char>>::empty());
    }
    while i < parts.len()
        invariant
            i <= parts.len(),
            pv == parts.deep_view(),
            pv.len() == parts.len(),
            match jsessionid {
                Some(v) => cookie_lookup(pv.take(i as int), "JSESSIONID"@) == Some(v@),
                None => cookie_lookup(pv.take(i as int), "JSESSIONID"@) is None,
            },
            match tenant_id {
                Some(v) => cookie_lookup(pv.take(i as int), "Tenant-Id"@) == Some(v@),
                None => cookie_lookup(pv.take(i as int), "Tenant-Id"@) is None,
            },
            match school {
                Some(v) => cookie_lookup(pv.take(i as int), "schoolname"@) == Some(v@),
                None => cookie_lookup(pv.take(i as int), "schoolname"@) is None,
            },
        decreases parts.len() - i,
    {
        let part = &parts[i];
        let eq = find_eq(part);
        let (keyc, valc) = match eq {
            Some(f) => {
                proof {
                    assert(f < part@.len());
                }
                let mut k: Vec<char> = Vec::new();
                let mut n: usize = 0;
                proof {
                    assert(k@ =~= part@.subrange(0, 0));
                }
                while n < f
                    invariant
                        n <= f,
                        f < part@.len(),
                        k@ == part@.subrange(0, n as int),
                    decreases f - n,
                {
                    k.push(part[n]);
                    proof {
                        assert(k@ =~= part@.subrange(0, n + 1));
                    }
                    n += 1;
                }
                let mut v2: Vec<char> = Vec::new();
                let mut n2: usize = f + 1;
                proof {
                    assert(v2@ =~= part@.subrange(f + 1, f + 1));
                }
                while n2 < part.len()
                    invariant
                        f + 1 <= n2 <= part@.len(),
                        part@.len() == part.len(),
                        v2@ == part@.subrange(f + 1, n2 as int),
                    decreases part.len() - n2,
                {
                    v2.push(part[n2]);
                    proof {
                        assert(v2@ =~= part@.subrange(f + 1, n2 + 1));
                    }
                    n2 += 1;
                }
                (k, v2)
            },
            None => {
                let mut k: Vec<char> = Vec::new();
                let mut n: usize = 0;
                proof {
                    assert(k@ =~= part@.subrange(0, 0));
                }
                while n < part.len()
                    invariant
                        n <= part@.len(),
                        part@.len() == part.len(),
                        k@ == part@.subrange(0, n as int),
                    decreases part.len() - n,
                {
                    k.push(part[n]);
                    proof {
                        assert(k@ =~= part@.subrange(0, n + 1));
                    }
                    n += 1;
                }
                (k, Vec::new())
            },
        };
        proof {
            let pc = pv[i as int];
            assert(pc == parts@[i as int]@);
            match eq {
                Some(f) => {
                    assert(keyc@ =~= key_of(pc)) by {
                        assert(pc.take(find_char(pc, '=')) =~= pc.subrange(0, f as int));
                    }
                    assert(valc@ =~= val_of(pc)) by {
                        assert(pc.skip(find_char(pc, '=') + 1) =~= pc.subrange(
                            f + 1,
                            pc.len() as int,
                        ));
                    }
                },
                None => {
                    assert(keyc@ =~= key_of(pc)) by {
                        assert(pc.subrange(0, pc.len() as int) =~= pc);
                    }
                    assert(valc@ =~= val_of(pc)) by {
                        assert(valc@ =~= Seq::<char>::empty());
                    }
                },
            }
        }
        let key = trim_chars(&keyc);
        let val = trim_chars(&valc);
        proof {
            reveal_strlit("JSESSIONID");
            reveal_strlit("Tenant-Id");
            reveal_strlit("schoolname");
            assert("JSESSIONID"@.len() == 10 && "Tenant-Id"@.len() == 9 && "schoolname"@.len()
                == 10);
            assert("JSESSIONID"@[0] == 'J' && "schoolname"@[0] == 's');
            assert(key@ == trimmed(key_of(pv[i as int])));
            assert(val@ == trimmed(val_of(pv[i as int])));
            assert(pv.take(i + 1).drop_last() =~= pv.take(i as int));
            assert(pv.take(i + 1).last() == pv[i as int]);
        }
        if chars_eq_str(&key, "JSESSIONID") {
            jsessionid = Some(val);
        } else if chars_eq_str(&key, "Tenant-Id") {
            tenant_id = Some(val);
        } else if chars_eq_str(&key, "schoolname") {
            school = Some(val);
        }
        i += 1;
    }
    proof {
        assert(pv.take(parts.len() as int) =~= pv);
    }
    match (jsessionid, tenant_id, school) {
        (Some(j), Some(t), Some(n)) => {
            let c = Cookies {
                jsessionid: chars_to_string(&j),
                tenant_id: chars_to_string(&t),
                school_name_base32: chars_to_string(&n),
            };
            Some(c)
        },
        _ => None,
    }
}

fn find_eq(part: &Vec<char>) -> (r: Option<usize>)
    ensures
        r matches Some(f) ==> f < part@.len() && f as int == find_char(part@, '='),
        r is None ==> find_char(part@, '=') < 0,
{
    let mut j: usize = 0;
    while j < part.len() && part[j] != '='
        invariant
            j <= part.len(),
            part@.len() == part.len(),
            forall|k: int| 0 <= k < j ==> part@[k] != '=',
        decreases part.len() - j,
    {
        j += 1;
    }
    proof {
        lemma_find_char_props(part@, '=');
        let f = find_char(part@, '=');
        if j < part.len() {
            assert(part@[j as int] == '=');
            if f < 0 {
                assert(part@[j as int] != '=');
            } else if f < j {
                assert(part@[f] != '=');
            } else if f > j {
                assert(part@[j as int] != '=');
            }
        } else {
            if f >= 0 {
                assert(part@[f] == '=');
            }
        }
    }
    if j < part.len() {
        Some(j)
    } else {
        None
    }
}

/// The client counts as signed in when a full set of session cookies is
/// present.
pub fn is_authenticated(raw_cookies: &str) -> (r: bool)
    ensures
        r == (cookies_spec(raw_cookies@) is Some),
{
    get_cookies(raw_cookies).is_some()
}

/// A placeholder handle for cookie storage; reading and writing the browser's
/// cookie jar happens outside the library.
#[derive(Clone, Debug)]
pub struct PersistenceManager {}

impl PersistenceManager {
    /// Parse the session cookies out of a raw cookie header.
    pub fn get_cookies(raw: &str) -> (r: Option<Cookies>)
        ensures
            r matches Some(c) ==> cookies_spec(raw@) == Some(c@),
            r is None ==> cookies_spec(raw@) is None,
    {
        get_cookies(raw)
    }
}

impl Cookies {
    /// The Cookie header value for a request to the remote service.
    pub fn to_header_value(&self) -> (r: String)
        ensures
            r@ == "JSESSIONID="@ + self@.jsessionid + "; Tenant-Id="@ + self@.tenant_id
                + "; schoolname="@ + self@.school_name_base32,
    {
        let mut out = "JSESSIONID=".to_owned();
        out.append(self.jsessionid.as_str());
        out.append("; Tenant-Id=");
        out.append(self.tenant_id.as_str());
        out.append("; schoolname=");
        out.append(self.school_name_base32.as_str());
        proof {
            assert(out@ =~= "JSESSIONID="@ + self@.jsessionid + "; Tenant-Id="@ + self@.tenant_id
                + "; schoolname="@ + self@.school_name_base32);
        }
        out
    }
}

// ------------------------------------------------------------------
// Clients and the timetable cache
// ------------------------------------------------------------------

/// Handle on the remote timetable service, bound to one school.
#[derive(Clone, Debug)]
pub struct UntisClient {
    pub school_name: String,
}

impl UntisClient {
    /// A client for the given school identifier.
    pub fn new(school_name: String) -> (r: UntisClient)
        ensures
            r.school_name@ == school_name@,
    {
        UntisClient { school_name }
    }

    /// Signed in: the raw cookie header carries a full session.
    pub fn is_authenticated(raw_cookies: &str) -> (r: bool)
        ensures
            r == (cookies_spec(raw_cookies@) is Some),
    {
        is_authenticated(raw_cookies)
    }
}

/// The class timetables of one fetch, with the pre-selected class.
pub struct TimeTables {
    pub classes: Vec<(crate::model::Class, crate::model::WeekTimeTable)>,
    pub pre_selected: Option<i32>,
}

pub ghost struct TimeTablesView {
    pub classes: Seq<(crate::model::ClassView, crate::model::WeekView)>,
    pub pre_selected: Option<i32>,
}

impl View for TimeTables {
    type V = TimeTablesView;

    open spec fn view(&self) -> TimeTablesView {
        TimeTablesView { classes: self.classes.deep_view(), pre_selected: self.pre_selected }
    }
}

impl DeepView for TimeTables {
    type V = TimeTablesView;

    open spec fn deep_view(&self) -> TimeTablesView {
        self.view()
    }
}

/// One cache slot as its mathematical content.
pub type CacheEntryView = (crate::week::WeekSpanView, Option<u64>, TimeTablesView);

/// The slots that survive storing a fetch for `w`: everything keyed by
/// another week, in order.
pub open spec fn drop_week(entries: Seq<CacheEntryView>, w: crate::week::WeekSpanView) -> Seq<
    CacheEntryView,
>
    decreases entries.len(),
{
    if entries.len() == 0 {
        Seq::empty()
    } else {
        drop_week(entries.drop_last(), w) + if week_eq(entries.last().0, w) {
            Seq::empty()
        } else {
            seq![entries.last()]
        }
    }
}

/// One cached fetch: the week, an optional expiry timestamp in minutes, and
/// the tables.
pub struct TimeTableCache {
    pub entries: Vec<(crate::week::Week, Option<u64>, TimeTables)>,
}

/// What the cache says about a requested week.
#[derive(Clone, Copy, PartialEq, Eq, Structural, Debug)]
pub enum CacheDecision {
    /// The entry at this index is valid and should be served.
    Fresh(usize),
    /// The entry at this index has expired and must be refetched.
    Stale(usize),
    /// No entry for the week.
    Miss,
}

/// Weeks match when both date strings match.
pub open spec fn week_eq(a: crate::week::WeekSpanView, b: crate::week::WeekSpanView) -> bool {
    a.start == b.start && a.end == b.end
}

/// A cache entry is fresh when it has no expiry or its expiry lies in the
/// future.
pub open spec fn entry_fresh(expiry: Option<u64>, now: u64) -> bool {
    match expiry {
        None => true,
        Some(e) => e > now,
    }
}

/// A caching layer over the client: the decision whether a cached week can
/// be served is made here, the fetching and storing around it is not.
pub struct CachedUntisClient {
    pub untis_client: UntisClient,
}

impl CachedUntisClient {
    /// A caching client wrapping the given client.
    pub fn new(untis_client: UntisClient) -> (r: CachedUntisClient)
        ensures
            r.untis_client.school_name@ == untis_client.school_name@,
    {
        CachedUntisClient { untis_client }
    }

    /// An empty cache: what clearing the stored cache writes back.
    pub fn clear_cache() -> (r: TimeTableCache)
        ensures
            r.entries@.len() == 0,
    {
        TimeTableCache { entries: Vec::new() }
    }

    /// Store a freshly fetched week: any slot already keyed by the week
    /// leaves, and the new tables enter without an expiry.
    pub fn cache_store(cache: TimeTableCache, week: crate::week::Week, tables: TimeTables) -> (r:
        TimeTableCache)
        ensures
            r.entries.deep_view() == drop_week(cache.entries.deep_view(), week@).push(
                (week@, None::<u64>, tables@),
            ),
    {
        let ghost ev = cache.entries.deep_view();
        let ghost wv = week@;
        let mut old_entries = cache.entries;
        let mut kept: Vec<(crate::week::Week, Option<u64>, TimeTables)> = Vec::new();
        let ghost mut i: int = 0;
        proof {
            assert(ev.take(0) =~= Seq::<CacheEntryView>::empty());
            assert(kept.deep_view() =~= drop_week(ev.take(0), wv));
            assert(old_entries.deep_view() =~= ev.skip(0));
        }
        while old_entries.len() > 0
            invariant
                0 <= i <= ev.len(),
                old_entries.deep_view() == ev.skip(i),
                kept.deep_view() == drop_week(ev.take(i), wv),
                wv == week@,
            decreases old_entries.len(),
        {
            let ghost before = old_entries.deep_view();
            let entry = old_entries.remove(0);
            let ghost entv = ev[i];
            proof {
                assert(before.len() > 0);
                assert(i < ev.len());
                assert(before[0] == ev[i]);
                assert(entry.deep_view() == before[0]);
                assert(old_entries.deep_view() =~= before.drop_first());
                assert(before.drop_first() =~= ev.skip(i + 1));
            }
            let same = crate::text::str_eq(entry.0.start.as_str(), week.start.as_str())
                && crate::text::str_eq(entry.0.end.as_str(), week.end.as_str());
            let ghost prev = kept.deep_view();
            if !same {
                kept.push(entry);
                proof {
                    assert(kept.deep_view() =~= prev.push(entv));
                }
            }
            proof {
                assert(same == week_eq(entv.0, wv));
                assert(ev.take(i + 1).drop_last() =~= ev.take(i));
                assert(ev.take(i + 1).last() == entv);
                assert(kept.deep_view() =~= drop_week(ev.take(i + 1), wv));
                i = i + 1;
            }
        }
        proof {
            assert(ev.skip(i).len() == 0);
            assert(i == ev.len());
            assert(ev.take(ev.len() as int) =~= ev);
        }
        let ghost tv = tables@;
        kept.push((week, None, tables));
        proof {
            assert(kept.deep_view() =~= drop_week(ev, wv).push((wv, None::<u64>, tv)));
        }
        TimeTableCache { entries: kept }
    }

    /// Decide what the cache holds for a week at the given time: the first
    /// entry for the week decides, and it is served only while fresh.
    pub fn cache_lookup(cache: &TimeTableCache, week: &crate::week::Week, now: u64) -> (r:
        CacheDecision)
        ensures
            r matches CacheDecision::Fresh(i) ==> i < cache.entries@.len() && week_eq(
                cache.entries@[i as int].0@,
                week@,
            ) && entry_fresh(cache.entries@[i as int].1, now) && forall|k: int|
                0 <= k < i ==> !week_eq((#[trigger] cache.entries@[k]).0@, week@),
            r matches CacheDecision::Stale(i) ==> i < cache.entries@.len() && week_eq(
                cache.entries@[i as int].0@,
                week@,
            ) && !entry_fresh(cache.entries@[i as int].1, now) && forall|k: int|
                0 <= k < i ==> !week_eq((#[trigger] cache.entries@[k]).0@, week@),
            r is Miss ==> forall|k: int|
                0 <= k < cache.entries@.len() ==> !week_eq(
                    (#[trigger] cache.entries@[k]).0@,
                    week@,
                ),
    {
        let mut i: usize = 0;
        while i < cache.entries.len()
            invariant
                i <= cache.entries@.len(),
                cache.entries@.len() == cache.entries.len(),
                forall|k: int| 0 <= k < i ==> !week_eq((#[trigger] cache.entries@[k]).0@, week@),
            decreases cache.entries.len() - i,
        {
            let entry = &cache.entries[i];
            let same = crate::text::str_eq(entry.0.start.as_str(), week.start.as_str())
                && crate::text::str_eq(entry.0.end.as_str(), week.end.as_str());
            if same {
                proof {
                    assert(week_eq(cache.entries@[i as int].0@, week@));
                }
                let fresh = match entry.1 {
                    None => true,
                    Some(e) => e > now,
                };
                if fresh {
                    return CacheDecision::Fresh(i);
                } else {
                    return CacheDecision::Stale(i);
                }
            }
            i += 1;
        }
        CacheDecision::Miss
    }
}

// ------------------------------------------------------------------
// One-time passwords
// ------------------------------------------------------------------

/// What decoding a base32 secret yields.
pub uninterp spec fn decoded_secret(s: Seq<char>) -> Option<Seq<u8>>;

/// The six-digit one-time code of a secret at a time step.
pub uninterp spec fn totp_code(secret: Seq<u8>, seconds: u64) -> Seq<char>;

/// Relies on totp_rs's `Secret::Encoded` and `Secret::to_bytes`: base32
/// decoding depends on the text alone.
#[verifier::external_body]
fn decode_secret(s: &str) -> (r: Option<Vec<u8>>)
    ensures
        r matches Some(v) ==> decoded_secret(s@) == Some(v@),
        r is None ==> decoded_secret(s@) is None,
{
    totp_rs::Secret::Encoded(s.to_owned()).to_bytes().ok()
}

/// Relies on totp_rs's `TOTP::new_unchecked` and `TOTP::generate` with
/// SHA-1, six digits, skew 1 and a 30 second step: the code is a function of
/// the secret and the timestamp, zero padded to six digits.
#[verifier::external_body]
fn generate_totp(secret: Vec<u8>, seconds: u64) -> (r: String)
    ensures
        r@ == totp_code(secret@, seconds),
        r@.len() == 6,
{
    let totp = totp_rs::TOTP::new_unchecked(totp_rs::Algorithm::SHA1, 6, 1, 30, secret);
    totp.generate(seconds)
}

/// The sign-in token for a stored secret at a wall-clock instant, given in
/// milliseconds: the secret is base32 decoded and the one-time code taken at
/// the corresponding second.
pub fn build_totp_token(secret_base32: &str, now_ms: u64) -> (r: Option<String>)
    ensures
        decoded_secret(secret_base32@) matches Some(sec) ==> r matches Some(t) && t@ == totp_code(
            sec,
            now_ms / 1000,
        ) && t@.len() == 6,
        decoded_secret(secret_base32@) is None ==> r is None,
{
    match decode_secret(secret_base32) {
        Some(bytes) => Some(generate_totp(bytes, now_ms / 1000)),
        None => None,
    }
}

} // verus!
