//! The persistent state store: one record per tracked window, remembering
//! where the window was and which grid cell it was last placed into.
//!
//! Geometry coordinates are carried as the decimal text written by the
//! window-management adapter (for example `"100"` or `"832.5"`).  The store
//! never does arithmetic on them: it only checks that they are well-formed
//! float literals, compares them for equality, and writes them back out
//! verbatim.
//!
//! The encoding is line oriented: one record per line, nine fields separated
//! by blanks, in the order `window_id x y width height rows columns grid_x
//! grid_y`.  A single malformed line makes the whole text unreadable, and the
//! store then starts empty: this deliberate all-or-nothing recovery is part
//! of the observable behaviour.

use vstd::prelude::*;
use vstd::string::StrSliceExecFns;
use vstd::string::StringExecFns;
use vstd::pervasive::VecAdditionalExecFns;
use crate::numtext::is_float_token;
use crate::numtext::check_float_token;
use crate::numtext::parse_u32;
use crate::numtext::parse_u32_spec;

verus! {

/// The mathematical value of a [`WindowStatus`]: every text field replaced by
/// its character sequence.  Contracts throughout the crate speak of this
/// model.
#[verifier::ext_equal]
pub struct StatusModel {
    pub window_id: u32,
    pub x_px: Seq<char>,
    pub y_px: Seq<char>,
    pub x_grid: u32,
    pub y_grid: u32,
    pub w: Seq<char>,
    pub h: Seq<char>,
    pub rows: u32,
    pub columns: u32,
}

/// Where a tracked window was as of the last invocation that touched it:
/// its on-screen position and size (as geometry text tokens), the grid shape
/// it was placed under, and the grid cell it was placed into.
#[derive(Debug)]
pub struct WindowStatus {
    pub window_id: u32,
    pub x_px: String,
    pub y_px: String,
    pub x_grid: u32,
    pub y_grid: u32,
    pub w: String,
    pub h: String,
    pub rows: u32,
    pub columns: u32,
}

impl View for WindowStatus {
    type V = StatusModel;

    open spec fn view(&self) -> StatusModel {
        StatusModel {
            window_id: self.window_id,
            x_px: self.x_px@,
            y_px: self.y_px@,
            x_grid: self.x_grid,
            y_grid: self.y_grid,
            w: self.w@,
            h: self.h@,
            rows: self.rows,
            columns: self.columns,
        }
    }
}

/// Whether `c` separates two fields of a record line.
pub open spec fn is_field_sep(c: char) -> bool {
    c == ' ' || c == '\t' || c == '\r'
}

/// A usable geometry token: non-empty and free of separators and line
/// breaks, so that it survives being written into a line and split back out.
pub open spec fn clean_token(t: Seq<char>) -> bool {
    t.len() >= 1 && forall|k: int|
        0 <= k < t.len() ==> !is_field_sep(#[trigger] t[k]) && t[k] != '\n'
}

/// A well-formed geometry field: a float literal that can stand in a record
/// line.
pub open spec fn token_wf(t: Seq<char>) -> bool {
    is_float_token(t) && clean_token(t)
}

impl WindowStatus {
    /// All four geometry fields are well-formed float tokens.
    pub open spec fn wf(self) -> bool {
        token_wf(self.x_px@) && token_wf(self.y_px@) && token_wf(self.w@) && token_wf(self.h@)
    }

    /// Runtime check for [`WindowStatus::wf`].
    pub fn is_well_formed(&self) -> (b: bool)
        ensures
            b == self.wf(),
    {
        check_token(self.x_px.as_str()) && check_token(self.y_px.as_str()) && check_token(
            self.w.as_str(),
        ) && check_token(self.h.as_str())
    }
}

/// Runtime check for [`token_wf`].
fn check_token(t: &str) -> (b: bool)
    ensures
        b == token_wf(t@),
{
    let n = t.unicode_len();
    if n == 0 {
        return false;
    }
    let mut i: usize = 0;
    while i < n
        invariant
            n == t@.len(),
            0 <= i <= n,
            forall|k: int| 0 <= k < i ==> !is_field_sep(#[trigger] t@[k]) && t@[k] != '\n',
        decreases n - i,
    {
        let c = t.get_char(i);
        if c == ' ' || c == '\t' || c == '\r' || c == '\n' {
            return false;
        }
        i = i + 1;
    }
    check_float_token(t)
}

/// The first position at or after `i` holding a newline (or the end of `s`).
pub open spec fn nl_end(s: Seq<char>, i: int) -> int
    decreases s.len() - i when 0 <= i <= s.len()
{
    if i < s.len() && s[i] != '\n' {
        nl_end(s, i + 1)
    } else {
        i
    }
}

pub proof fn lemma_nl_end(s: Seq<char>, i: int)
    requires
        0 <= i <= s.len(),
    ensures
        i <= nl_end(s, i) <= s.len(),
        forall|k: int| i <= k < nl_end(s, i) ==> #[trigger] s[k] != '\n',
        nl_end(s, i) < s.len() ==> s[nl_end(s, i)] == '\n',
    decreases s.len() - i,
{
    if i < s.len() && s[i] != '\n' {
        lemma_nl_end(s, i + 1);
    }
}

/// The first position at or after `i` holding a field separator (or the end
/// of `s`).
pub open spec fn tok_end(s: Seq<char>, i: int) -> int
    decreases s.len() - i when 0 <= i <= s.len()
{
    if i < s.len() && !is_field_sep(s[i]) {
        tok_end(s, i + 1)
    } else {
        i
    }
}

pub proof fn lemma_tok_end(s: Seq<char>, i: int)
    requires
        0 <= i <= s.len(),
    ensures
        i <= tok_end(s, i) <= s.len(),
        forall|k: int| i <= k < tok_end(s, i) ==> !is_field_sep(#[trigger] s[k]),
        tok_end(s, i) < s.len() ==> is_field_sep(s[tok_end(s, i)]),
    decreases s.len() - i,
{
    if i < s.len() && !is_field_sep(s[i]) {
        lemma_tok_end(s, i + 1);
    }
}

/// The lines of `s` from position `i` on, split at newlines; the final line
/// needs no newline of its own.
pub open spec fn lines_from(s: Seq<char>, i: int) -> Seq<Seq<char>>
    decreases s.len() - i when 0 <= i <= s.len() via lines_from_dec
{
    if i >= s.len() {
        seq![]
    } else {
        let j = nl_end(s, i);
        if j == s.len() {
            seq![s.subrange(i, j)]
        } else {
            seq![s.subrange(i, j)] + lines_from(s, j + 1)
        }
    }
}

#[via_fn]
proof fn lines_from_dec(s: Seq<char>, i: int) {
    if 0 <= i < s.len() {
        lemma_nl_end(s, i);
    }
}

/// The fields of a line from position `i` on: maximal runs of non-separator
/// characters.
pub open spec fn fields_from(s: Seq<char>, i: int) -> Seq<Seq<char>>
    decreases s.len() - i when 0 <= i <= s.len() via fields_from_dec
{
    if i >= s.len() {
        seq![]
    } else if is_field_sep(s[i]) {
        fields_from(s, i + 1)
    } else {
        seq![s.subrange(i, tok_end(s, i))] + fields_from(s, tok_end(s, i))
    }
}

#[via_fn]
proof fn fields_from_dec(s: Seq<char>, i: int) {
    if 0 <= i < s.len() && !is_field_sep(s[i]) {
        lemma_tok_end(s, i + 1);
    }
}

/// Every field of a newline-free line is non-empty and free of separators:
/// exactly what splitting produces.
pub proof fn lemma_fields_clean(s: Seq<char>, i: int)
    requires
        0 <= i <= s.len(),
        forall|k: int| 0 <= k < s.len() ==> #[trigger] s[k] != '\n',
    ensures
        forall|fi: int|
            0 <= fi < fields_from(s, i).len() ==> clean_token(#[trigger] fields_from(s, i)[fi]),
    decreases s.len() - i,
{
    if i >= s.len() {
    } else if is_field_sep(s[i]) {
        lemma_fields_clean(s, i + 1);
        assert(fields_from(s, i) == fields_from(s, i + 1));
        assert forall|fi: int| 0 <= fi < fields_from(s, i).len() implies clean_token(
            #[trigger] fields_from(s, i)[fi],
        ) by {
            assert(clean_token(fields_from(s, i + 1)[fi]));
        }
    } else {
        lemma_tok_end(s, i);
        let j = tok_end(s, i);
        assert(j > i);
        lemma_fields_clean(s, j);
        let t = s.subrange(i, j);
        assert(clean_token(t)) by {
            assert(forall|k: int| 0 <= k < t.len() ==> t[k] == s[k + i]);
        }
        assert forall|fi: int| 0 <= fi < fields_from(s, i).len() implies clean_token(
            #[trigger] fields_from(s, i)[fi],
        ) by {
            if fi == 0 {
                assert(fields_from(s, i)[0] == t);
            } else {
                assert(fields_from(s, i)[fi] == fields_from(s, j)[fi - 1]);
                assert(clean_token(fields_from(s, j)[fi - 1]));
            }
        }
    }
}

/// What one record line means, if anything: nine fields, the integer fields
/// parsed, the geometry fields checked against the float grammar and kept
/// verbatim.
pub open spec fn parse_record(l: Seq<char>) -> Option<StatusModel> {
    let fs = fields_from(l, 0);
    if fs.len() != 9 {
        None
    } else {
        match (parse_u32_spec(fs[0]), parse_u32_spec(fs[5]), parse_u32_spec(fs[6]), parse_u32_spec(
            fs[7],
        ), parse_u32_spec(fs[8])) {
            (Some(id), Some(rows), Some(columns), Some(gx), Some(gy)) => if is_float_token(fs[1])
                && is_float_token(fs[2]) && is_float_token(fs[3]) && is_float_token(fs[4]) {
                Some(
                    StatusModel {
                        window_id: id,
                        x_px: fs[1],
                        y_px: fs[2],
                        x_grid: gx,
                        y_grid: gy,
                        w: fs[3],
                        h: fs[4],
                        rows: rows,
                        columns: columns,
                    },
                )
            } else {
                None
            },
            _ => None,
        }
    }
}

/// Fold the parsed lines into a map, later records overwriting earlier ones
/// with the same id; empty lines are skipped; one bad line spoils the whole
/// text.
pub open spec fn parse_lines_from(ls: Seq<Seq<char>>, m: Map<u32, StatusModel>) -> Option<
    Map<u32, StatusModel>,
>
    decreases ls.len(),
{
    if ls.len() == 0 {
        Some(m)
    } else {
        let l = ls.first();
        if l.len() == 0 {
            parse_lines_from(ls.drop_first(), m)
        } else {
            match parse_record(l) {
                None => None,
                Some(r) => parse_lines_from(ls.drop_first(), m.insert(r.window_id, r)),
            }
        }
    }
}

/// What a whole store text means, if anything.
pub open spec fn parse_store(s: Seq<char>) -> Option<Map<u32, StatusModel>> {
    parse_lines_from(lines_from(s, 0), Map::empty())
}

/// The map held by a sequence of keyed records, later entries overwriting
/// earlier ones.
pub open spec fn map_of(s: Seq<(u32, WindowStatus)>) -> Map<u32, StatusModel>
    decreases s.len(),
{
    if s.len() == 0 {
        Map::empty()
    } else {
        map_of(s.drop_last()).insert(s.last().0, s.last().1@)
    }
}

/// No two entries share a key.
pub open spec fn keys_unique(s: Seq<(u32, WindowStatus)>) -> bool {
    forall|i: int, j: int| 0 <= i < j < s.len() ==> (#[trigger] s[i]).0 != (#[trigger] s[j]).0
}

/// Every entry holds a well-formed record filed under its own window id.
pub open spec fn records_wf(s: Seq<(u32, WindowStatus)>) -> bool {
    forall|i: int|
        0 <= i < s.len() ==> (#[trigger] s[i]).1.wf() && s[i].0 == s[i].1.window_id
}

pub proof fn lemma_map_of_absent(s: Seq<(u32, WindowStatus)>, k: u32)
    requires
        forall|i: int| 0 <= i < s.len() ==> (#[trigger] s[i]).0 != k,
    ensures
        !map_of(s).contains_key(k),
    decreases s.len(),
{
    if s.len() > 0 {
        lemma_map_of_absent(s.drop_last(), k);
    }
}

pub proof fn lemma_map_of_present(s: Seq<(u32, WindowStatus)>, i: int)
    requires
        keys_unique(s),
        0 <= i < s.len(),
    ensures
        map_of(s).contains_key(s[i].0),
        map_of(s)[s[i].0] == s[i].1@,
    decreases s.len(),
{
    if i == s.len() - 1 {
    } else {
        lemma_map_of_present(s.drop_last(), i);
        assert(s.last().0 != s[i].0);
    }
}

pub proof fn lemma_map_of_update(s: Seq<(u32, WindowStatus)>, i: int, ws: WindowStatus)
    requires
        keys_unique(s),
        0 <= i < s.len(),
    ensures
        map_of(s.update(i, (s[i].0, ws))) =~= map_of(s).insert(s[i].0, ws@),
    decreases s.len(),
{
    let k = s[i].0;
    let s2 = s.update(i, (k, ws));
    if i == s.len() - 1 {
        assert(s2.drop_last() =~= s.drop_last());
        assert(map_of(s2) == map_of(s.drop_last()).insert(k, ws@));
        assert(map_of(s) == map_of(s.drop_last()).insert(k, s[i].1@));
    } else {
        assert(s2.drop_last() =~= s.drop_last().update(i, (k, ws)));
        lemma_map_of_update(s.drop_last(), i, ws);
        assert(s.drop_last()[i] == s[i]);
        assert(s2.last() == s.last());
        assert(map_of(s2) == map_of(s.drop_last().update(i, (k, ws))).insert(s.last().0, s.last().1@));
        assert(s.last().0 != k);
    }
}

pub proof fn lemma_map_of_dom(s: Seq<(u32, WindowStatus)>)
    requires
        keys_unique(s),
    ensures
        map_of(s).dom().finite(),
        map_of(s).dom().len() == s.len(),
    decreases s.len(),
{
    if s.len() > 0 {
        lemma_map_of_dom(s.drop_last());
        lemma_map_of_absent(s.drop_last(), s.last().0);
    }
}

/// The first position at or after `from` holding a newline.
fn scan_to_nl(s: &str, from: usize) -> (r: usize)
    requires
        from <= s@.len(),
    ensures
        from <= r <= s@.len(),
        r == nl_end(s@, from as int),
{
    let n = s.unicode_len();
    let mut i = from;
    loop
        invariant
            n == s@.len(),
            from <= i <= n,
            nl_end(s@, from as int) == nl_end(s@, i as int),
        ensures
            from <= i <= n,
            i == nl_end(s@, from as int),
        decreases n - i,
    {
        if i == n {
            break ;
        }
        if s.get_char(i) == '\n' {
            break ;
        }
        i = i + 1;
    }
    i
}

/// The fields of a line, split at blanks.
fn split_fields(line: &str) -> (r: Vec<String>)
    ensures
        r@.map_values(|t: String| t@) == fields_from(line@, 0),
{
    let n = line.unicode_len();
    let mut r: Vec<String> = Vec::new();
    let mut i: usize = 0;
    while i < n
        invariant
            n == line@.len(),
            0 <= i <= n,
            fields_from(line@, 0) == r@.map_values(|t: String| t@) + fields_from(line@, i as int),
        decreases n - i,
    {
        let c = line.get_char(i);
        if c == ' ' || c == '\t' || c == '\r' {
            i = i + 1;
        } else {
            // Scan the token that starts here.
            let mut j = i + 1;
            loop
                invariant
                    n == line@.len(),
                    i < j <= n,
                    tok_end(line@, i as int) == tok_end(line@, j as int),
                    !is_field_sep(line@[i as int]),
                ensures
                    i < j <= n,
                    j == tok_end(line@, i as int),
                decreases n - j,
            {
                if j == n {
                    break ;
                }
                let c2 = line.get_char(j);
                if c2 == ' ' || c2 == '\t' || c2 == '\r' {
                    break ;
                }
                j = j + 1;
            }
            let tok = String::from_str(line.substring_char(i, j));
            proof {
                let old_map = r@.map_values(|t: String| t@);
                assert((r@ + seq![tok]).map_values(|t: String| t@) =~= old_map + seq![
                    line@.subrange(i as int, j as int),
                ]);
                assert(fields_from(line@, i as int) == seq![
                    line@.subrange(i as int, j as int),
                ] + fields_from(line@, j as int));
                assert(old_map + (seq![line@.subrange(i as int, j as int)] + fields_from(
                    line@,
                    j as int,
                )) =~= (old_map + seq![line@.subrange(i as int, j as int)]) + fields_from(
                    line@,
                    j as int,
                ));
            }
            r.push(tok);
            i = j;
        }
    }
    assert(fields_from(line@, n as int) =~= Seq::<Seq<char>>::empty());
    assert(r@.map_values(|t: String| t@) + Seq::<Seq<char>>::empty() =~= r@.map_values(
        |t: String| t@,
    ));
    r
}

/// Parse one non-empty record line.
fn parse_record_line(line: &str) -> (r: Option<WindowStatus>)
    requires
        forall|k: int| 0 <= k < line@.len() ==> #[trigger] line@[k] != '\n',
    ensures
        match r {
            Some(ws) => parse_record(line@) == Some(ws@) && ws.wf() && ws.window_id
                == ws@.window_id,
            None => parse_record(line@) is None,
        },
{
    let fs = split_fields(line);
    proof {
        lemma_fields_clean(line@, 0);
    }
    if fs.len() != 9 {
        return None;
    }
    let ghost spec_fs = fields_from(line@, 0);
    assert(forall|k: int| 0 <= k < 9 ==> spec_fs[k] == (#[trigger] fs@[k])@);
    let id = match parse_u32(fs[0].as_str()) {
        Some(v) => v,
        None => {
            return None;
        },
    };
    let rows = match parse_u32(fs[5].as_str()) {
        Some(v) => v,
        None => {
            return None;
        },
    };
    let columns = match parse_u32(fs[6].as_str()) {
        Some(v) => v,
        None => {
            return None;
        },
    };
    let gx = match parse_u32(fs[7].as_str()) {
        Some(v) => v,
        None => {
            return None;
        },
    };
    let gy = match parse_u32(fs[8].as_str()) {
        Some(v) => v,
        None => {
            return None;
        },
    };
    if !check_float_token(fs[1].as_str()) {
        return None;
    }
    if !check_float_token(fs[2].as_str()) {
        return None;
    }
    if !check_float_token(fs[3].as_str()) {
        return None;
    }
    if !check_float_token(fs[4].as_str()) {
        return None;
    }
    let ws = WindowStatus {
        window_id: id,
        x_px: fs[1].clone(),
        y_px: fs[2].clone(),
        x_grid: gx,
        y_grid: gy,
        w: fs[3].clone(),
        h: fs[4].clone(),
        rows,
        columns,
    };
    assert(parse_record(line@) == Some(ws@)) by {
        assert(ws@ =~= parse_record(line@)->Some_0);
    }
    Some(ws)
}

/// The window-record store: a mapping from window id to the record of the
/// window's last tracked placement.
pub struct WindowsMap {
    windows: Vec<(u32, WindowStatus)>,
}

impl View for WindowsMap {
    type V = Map<u32, StatusModel>;

    closed spec fn view(&self) -> Map<u32, StatusModel> {
        map_of(self.windows@)
    }
}

impl WindowsMap {
    /// No two stored records share a window id.
    pub closed spec fn key_inv(self) -> bool {
        keys_unique(self.windows@)
    }

    /// Every stored record is well-formed and filed under its own id.
    pub closed spec fn recs_wf(self) -> bool {
        records_wf(self.windows@)
    }

    /// The record last stored for `window_id`, if any.
    pub fn get(&self, window_id: u32) -> (r: Option<&WindowStatus>)
        requires
            self.key_inv(),
        ensures
            match r {
                Some(ws) => self@.contains_key(window_id) && ws@ == self@[window_id]
                    && (self.recs_wf() ==> ws.wf()),
                None => !self@.contains_key(window_id),
            },
    {
        let mut idx: usize = 0;
        let n = self.windows.len();
        while idx < n
            invariant
                n == self.windows@.len(),
                0 <= idx <= n,
                keys_unique(self.windows@),
                map_of(self.windows@) == self@,
                self.recs_wf() == records_wf(self.windows@),
                forall|k: int| 0 <= k < idx ==> (#[trigger] self.windows@[k]).0 != window_id,
            decreases n - idx,
        {
            let pair = &self.windows[idx];
            if pair.0 == window_id {
                proof {
                    lemma_map_of_present(self.windows@, idx as int);
                }
                return Some(&pair.1);
            }
            idx = idx + 1;
        }
        proof {
            lemma_map_of_absent(self.windows@, window_id);
        }
        None
    }

    /// How many windows are tracked.
    pub fn len(&self) -> (r: usize)
        requires
            self.key_inv(),
        ensures
            r == self@.dom().len(),
    {
        proof {
            lemma_map_of_dom(self.windows@);
        }
        self.windows.len()
    }

    /// Store `window_status` under `window_id`, overwriting any previous
    /// record for that id.
    pub fn insert(&mut self, window_id: u32, window_status: WindowStatus)
        requires
            old(self).key_inv(),
        ensures
            final(self)@ == old(self)@.insert(window_id, window_status@),
            final(self).key_inv(),
            old(self).recs_wf() && window_status.wf() && window_status.window_id == window_id
                ==> final(self).recs_wf(),
    {
        upsert(&mut self.windows, window_id, window_status);
    }

    /// Read a store from its text encoding.  The whole text is rejected — and
    /// nothing kept — as soon as one non-empty line is not a valid record.
    pub fn try_from(value: String) -> (r: Result<WindowsMap, &'static str>)
        ensures
            match r {
                Ok(m) => parse_store(value@) == Some(m@) && m.key_inv() && m.recs_wf(),
                Err(_) => parse_store(value@) is None,
            },
    {
        let s = value.as_str();
        let n = s.unicode_len();
        let mut vec: Vec<(u32, WindowStatus)> = Vec::new();
        let mut i: usize = 0;
        while i < n
            invariant
                s@ == value@,
                n == s@.len(),
                0 <= i <= n,
                keys_unique(vec@),
                records_wf(vec@),
                parse_lines_from(lines_from(s@, 0), Map::empty()) == parse_lines_from(
                    lines_from(s@, i as int),
                    map_of(vec@),
                ),
            decreases n - i,
        {
            let j = scan_to_nl(s, i);
            let ghost pre_lines = lines_from(s@, i as int);
            assert(pre_lines == seq![s@.subrange(i as int, j as int)] + (if j == n {
                Seq::<Seq<char>>::empty()
            } else {
                lines_from(s@, j + 1)
            })) by {
                if j == n {
                    assert(seq![s@.subrange(i as int, j as int)] + Seq::<Seq<char>>::empty()
                        =~= seq![s@.subrange(i as int, j as int)]);
                }
            }
            assert(pre_lines.first() == s@.subrange(i as int, j as int));
            assert(pre_lines.drop_first() =~= (if j == n {
                Seq::<Seq<char>>::empty()
            } else {
                lines_from(s@, j + 1)
            }));
            if j > i {
                let line = s.substring_char(i, j);
                proof {
                    lemma_nl_end(s@, i as int);
                    assert(forall|k: int| 0 <= k < line@.len() ==> #[trigger] line@[k] != '\n');
                }
                match parse_record_line(line) {
                    Some(ws) => {
                        let key = ws.window_id;
                        upsert(&mut vec, key, ws);
                    },
                    None => {
                        return Err("invalid record line");
                    },
                }
            }
            if j == n {
                i = n;
            } else {
                i = j + 1;
            }
        }
        assert(lines_from(s@, n as int) =~= Seq::<Seq<char>>::empty());
        let m = WindowsMap { windows: vec };
        Ok(m)
    }

    /// Read a store from its text encoding, or start empty if the text is
    /// not readable as a store.
    pub fn from_or_empty(value: String) -> (r: WindowsMap)
        ensures
            r@ == (match parse_store(value@) {
                Some(m) => m,
                None => Map::<u32, StatusModel>::empty(),
            }),
            r.key_inv(),
            r.recs_wf(),
    {
        match WindowsMap::try_from(value) {
            Ok(m) => m,
            Err(_) => {
                let m = WindowsMap { windows: Vec::new() };
                assert(m@ =~= Map::<u32, StatusModel>::empty());
                m
            },
        }
    }
}

/// No character of `s` is a newline.
pub open spec fn no_nl(s: Seq<char>) -> bool {
    forall|k: int| 0 <= k < s.len() ==> #[trigger] s[k] != '\n'
}

proof fn lemma_no_nl_concat(a: Seq<char>, b: Seq<char>)
    requires
        no_nl(a),
        no_nl(b),
    ensures
        no_nl(a + b),
{
    assert forall|k: int| 0 <= k < (a + b).len() implies #[trigger] (a + b)[k] != '\n' by {
        if k < a.len() {
            assert((a + b)[k] == a[k]);
        } else {
            assert((a + b)[k] == b[k - a.len()]);
        }
    }
}

/// A printed number is a clean, newline-free token.
proof fn lemma_dec_clean(n: int)
    requires
        n >= 0,
    ensures
        clean_token(crate::numtext::dec_spec(n)),
        no_nl(crate::numtext::dec_spec(n)),
{
    crate::numtext::lemma_dec_spec_val(n);
    let s = crate::numtext::dec_spec(n);
    assert forall|k: int| 0 <= k < s.len() implies !is_field_sep(#[trigger] s[k]) && s[k] != '\n' by {
        assert(crate::numtext::is_digit(s[k]));
    }
}

/// The nine fields of one record, joined by single blanks.
pub open spec fn body_of(p: (u32, WindowStatus)) -> Seq<char> {
    crate::numtext::dec_spec(p.0 as int) + seq![' '] + p.1@.x_px + seq![' '] + p.1@.y_px + seq![
        ' ',
    ] + p.1@.w + seq![' '] + p.1@.h + seq![' '] + crate::numtext::dec_spec(p.1@.rows as int)
        + seq![' '] + crate::numtext::dec_spec(p.1@.columns as int) + seq![' ']
        + crate::numtext::dec_spec(p.1@.x_grid as int) + seq![' '] + crate::numtext::dec_spec(
        p.1@.y_grid as int,
    )
}

/// The full line written for one record.
pub open spec fn line_of(p: (u32, WindowStatus)) -> Seq<char> {
    body_of(p) + seq!['\n']
}

/// The whole text written for a sequence of records, in order.
pub open spec fn emit(s: Seq<(u32, WindowStatus)>) -> Seq<char>
    decreases s.len(),
{
    if s.len() == 0 {
        Seq::empty()
    } else {
        emit(s.drop_last()) + line_of(s.last())
    }
}

proof fn lemma_tok_end_is(s: Seq<char>, i: int, j: int)
    requires
        0 <= i <= j <= s.len(),
        forall|k: int| i <= k < j ==> !is_field_sep(#[trigger] s[k]),
        j == s.len() || is_field_sep(s[j]),
    ensures
        tok_end(s, i) == j,
    decreases j - i,
{
    if i < j {
        lemma_tok_end_is(s, i + 1, j);
    }
}

proof fn lemma_nl_end_is(s: Seq<char>, i: int, j: int)
    requires
        0 <= i <= j <= s.len(),
        forall|k: int| i <= k < j ==> #[trigger] s[k] != '\n',
        j == s.len() || s[j] == '\n',
    ensures
        nl_end(s, i) == j,
    decreases j - i,
{
    if i < j {
        lemma_nl_end_is(s, i + 1, j);
    }
}

proof fn lemma_fields_shift(a: Seq<char>, b: Seq<char>, k: int)
    requires
        0 <= k <= b.len(),
    ensures
        fields_from(a + b, a.len() + k) == fields_from(b, k),
    decreases b.len() - k,
{
    let s = a + b;
    if k >= b.len() {
        assert(fields_from(s, a.len() + k) =~= fields_from(b, k));
    } else if is_field_sep(b[k]) {
        assert(s[a.len() + k] == b[k]);
        lemma_fields_shift(a, b, k + 1);
    } else {
        assert(s[a.len() + k] == b[k]);
        lemma_tok_end(b, k);
        let j = tok_end(b, k);
        assert forall|q: int| a.len() + k <= q < a.len() + j implies !is_field_sep(
            #[trigger] s[q],
        ) by {
            assert(s[q] == b[q - a.len()]);
        }
        if j < b.len() {
            assert(s[a.len() + j] == b[j]);
        }
        lemma_tok_end_is(s, a.len() + k, a.len() + j);
        assert(s.subrange(a.len() + k, a.len() + j) =~= b.subrange(k, j));
        lemma_fields_shift(a, b, j);
        assert(fields_from(s, a.len() + k) =~= fields_from(b, k));
    }
}

proof fn lemma_lines_shift(a: Seq<char>, b: Seq<char>, k: int)
    requires
        0 <= k <= b.len(),
    ensures
        lines_from(a + b, a.len() + k) == lines_from(b, k),
    decreases b.len() - k,
{
    let s = a + b;
    if k >= b.len() {
        assert(lines_from(s, a.len() + k) =~= lines_from(b, k));
    } else {
        lemma_nl_end(b, k);
        let j = nl_end(b, k);
        assert forall|q: int| a.len() + k <= q < a.len() + j implies #[trigger] s[q] != '\n' by {
            assert(s[q] == b[q - a.len()]);
        }
        if j < b.len() {
            assert(s[a.len() + j] == b[j]);
        }
        lemma_nl_end_is(s, a.len() + k, a.len() + j);
        assert(s.subrange(a.len() + k, a.len() + j) =~= b.subrange(k, j));
        if j < b.len() {
            lemma_lines_shift(a, b, j + 1);
        }
        assert(lines_from(s, a.len() + k) =~= lines_from(b, k));
    }
}

/// Splitting a clean token off the front of a line.
proof fn lemma_fields_step(t: Seq<char>, rest: Seq<char>)
    requires
        t.len() >= 1,
        forall|k: int| 0 <= k < t.len() ==> !is_field_sep(#[trigger] t[k]),
    ensures
        fields_from(t + (seq![' '] + rest), 0) == seq![t] + fields_from(rest, 0),
{
    let b = seq![' '] + rest;
    let s = t + b;
    assert forall|k: int| 0 <= k < t.len() implies !is_field_sep(#[trigger] s[k]) by {
        assert(s[k] == t[k]);
    }
    assert(s[t.len() as int] == b[0] == ' ');
    lemma_tok_end_is(s, 0, t.len() as int);
    assert(!is_field_sep(s[0]));
    assert(s.subrange(0, t.len() as int) =~= t);
    lemma_fields_shift(t, b, 1);
    assert(b.subrange(1, b.len() as int) =~= rest);
    lemma_fields_shift(seq![' '], rest, 0);
    reveal_with_fuel(fields_from, 3);
    assert(is_field_sep(s[t.len() as int]));
    assert(fields_from(s, t.len() as int) == fields_from(s, t.len() as int + 1));
    assert(fields_from(s, t.len() as int + 1) == fields_from(b, 1));
    assert(fields_from(b, 1) == fields_from(rest, 0));
    assert(fields_from(s, 0) == seq![s.subrange(0, tok_end(s, 0))] + fields_from(s, tok_end(s, 0)));
    assert(fields_from(s, 0) =~= seq![t] + fields_from(rest, 0));
}

/// A line holding one clean token alone.
proof fn lemma_fields_single(t: Seq<char>)
    requires
        t.len() >= 1,
        forall|k: int| 0 <= k < t.len() ==> !is_field_sep(#[trigger] t[k]),
    ensures
        fields_from(t, 0) == seq![t],
{
    lemma_tok_end_is(t, 0, t.len() as int);
    assert(t.subrange(0, t.len() as int) =~= t);
    reveal_with_fuel(fields_from, 2);
    assert(!is_field_sep(t[0]));
    assert(fields_from(t, t.len() as int) =~= Seq::<Seq<char>>::empty());
    assert(fields_from(t, 0) == seq![t.subrange(0, tok_end(t, 0))] + fields_from(t, tok_end(t, 0)));
    assert(fields_from(t, 0) =~= seq![t]);
}

/// The line written for a well-formed record reads back as exactly that
/// record.
/// The nine fields of one record joined by blanks, grouped from the right:
/// the same characters as [`body_of`], in the shape the splitting lemmas
/// take them apart in.
pub open spec fn body_nested(p: (u32, WindowStatus)) -> Seq<char> {
    crate::numtext::dec_spec(p.0 as int) + (seq![' '] + (p.1@.x_px + (seq![' '] + (p.1@.y_px + (
    seq![' '] + (p.1@.w + (seq![' '] + (p.1@.h + (seq![' '] + (crate::numtext::dec_spec(
        p.1@.rows as int,
    ) + (seq![' '] + (crate::numtext::dec_spec(p.1@.columns as int) + (seq![' '] + (
    crate::numtext::dec_spec(p.1@.x_grid as int) + (seq![' '] + crate::numtext::dec_spec(
        p.1@.y_grid as int,
    ))))))))))))))))
}

#[verifier::rlimit(100)]
proof fn lemma_body_assoc(p: (u32, WindowStatus))
    ensures
        body_of(p) == body_nested(p),
{
    assert(body_of(p) =~= body_nested(p));
}

proof fn lemma_body_no_nl(p: (u32, WindowStatus))
    requires
        p.1.wf(),
    ensures
        body_nested(p).len() >= 1,
        no_nl(body_nested(p)),
{
    let t0 = crate::numtext::dec_spec(p.0 as int);
    let t1 = p.1@.x_px;
    let t2 = p.1@.y_px;
    let t3 = p.1@.w;
    let t4 = p.1@.h;
    let t5 = crate::numtext::dec_spec(p.1@.rows as int);
    let t6 = crate::numtext::dec_spec(p.1@.columns as int);
    let t7 = crate::numtext::dec_spec(p.1@.x_grid as int);
    let t8 = crate::numtext::dec_spec(p.1@.y_grid as int);
    lemma_dec_clean(p.0 as int);
    lemma_dec_clean(p.1@.rows as int);
    lemma_dec_clean(p.1@.columns as int);
    lemma_dec_clean(p.1@.x_grid as int);
    lemma_dec_clean(p.1@.y_grid as int);
    let sp = seq![' '];
    assert(no_nl(sp)) by {
        assert(forall|k: int| 0 <= k < sp.len() ==> #[trigger] sp[k] == ' ');
    }
    let r8 = t8;
    let r7 = t7 + (sp + r8);
    let r6 = t6 + (sp + r7);
    let r5 = t5 + (sp + r6);
    let r4 = t4 + (sp + r5);
    let r3 = t3 + (sp + r4);
    let r2 = t2 + (sp + r3);
    let r1 = t1 + (sp + r2);
    lemma_no_nl_concat(sp, r8);
    lemma_no_nl_concat(t7, sp + r8);
    lemma_no_nl_concat(sp, r7);
    lemma_no_nl_concat(t6, sp + r7);
    lemma_no_nl_concat(sp, r6);
    lemma_no_nl_concat(t5, sp + r6);
    lemma_no_nl_concat(sp, r5);
    lemma_no_nl_concat(t4, sp + r5);
    lemma_no_nl_concat(sp, r4);
    lemma_no_nl_concat(t3, sp + r4);
    lemma_no_nl_concat(sp, r3);
    lemma_no_nl_concat(t2, sp + r3);
    lemma_no_nl_concat(sp, r2);
    lemma_no_nl_concat(t1, sp + r2);
    lemma_no_nl_concat(sp, r1);
    lemma_no_nl_concat(t0, sp + r1);
}

proof fn lemma_body_fields(p: (u32, WindowStatus))
    requires
        p.1.wf(),
    ensures
        fields_from(body_nested(p), 0) == seq![
            crate::numtext::dec_spec(p.0 as int),
            p.1@.x_px,
            p.1@.y_px,
            p.1@.w,
            p.1@.h,
            crate::numtext::dec_spec(p.1@.rows as int),
            crate::numtext::dec_spec(p.1@.columns as int),
            crate::numtext::dec_spec(p.1@.x_grid as int),
            crate::numtext::dec_spec(p.1@.y_grid as int),
        ],
{
    let t0 = crate::numtext::dec_spec(p.0 as int);
    let t1 = p.1@.x_px;
    let t2 = p.1@.y_px;
    let t3 = p.1@.w;
    let t4 = p.1@.h;
    let t5 = crate::numtext::dec_spec(p.1@.rows as int);
    let t6 = crate::numtext::dec_spec(p.1@.columns as int);
    let t7 = crate::numtext::dec_spec(p.1@.x_grid as int);
    let t8 = crate::numtext::dec_spec(p.1@.y_grid as int);
    lemma_dec_clean(p.0 as int);
    lemma_dec_clean(p.1@.rows as int);
    lemma_dec_clean(p.1@.columns as int);
    lemma_dec_clean(p.1@.x_grid as int);
    lemma_dec_clean(p.1@.y_grid as int);
    let sp = seq![' '];
    let r8 = t8;
    let r7 = t7 + (sp + r8);
    let r6 = t6 + (sp + r7);
    let r5 = t5 + (sp + r6);
    let r4 = t4 + (sp + r5);
    let r3 = t3 + (sp + r4);
    let r2 = t2 + (sp + r3);
    let r1 = t1 + (sp + r2);
    lemma_fields_single(t8);
    lemma_fields_step(t7, r8);
    lemma_fields_step(t6, r7);
    lemma_fields_step(t5, r6);
    lemma_fields_step(t4, r5);
    lemma_fields_step(t3, r4);
    lemma_fields_step(t2, r3);
    lemma_fields_step(t1, r2);
    lemma_fields_step(t0, r1);
    assert(fields_from(body_nested(p), 0) =~= seq![t0, t1, t2, t3, t4, t5, t6, t7, t8]);
}

/// The line written for a well-formed record reads back as exactly that
/// record.
proof fn lemma_parse_line_of(p: (u32, WindowStatus))
    requires
        p.1.wf(),
        p.0 == p.1.window_id,
    ensures
        body_of(p).len() >= 1,
        no_nl(body_of(p)),
        parse_record(body_of(p)) == Some(p.1@),
{
    lemma_body_assoc(p);
    lemma_body_no_nl(p);
    lemma_body_fields(p);
    crate::numtext::lemma_parse_of_dec(p.0);
    crate::numtext::lemma_parse_of_dec(p.1.rows);
    crate::numtext::lemma_parse_of_dec(p.1.columns);
    crate::numtext::lemma_parse_of_dec(p.1.x_grid);
    crate::numtext::lemma_parse_of_dec(p.1.y_grid);
    assert(parse_record(body_of(p)) == Some(p.1@)) by {
        assert(parse_record(body_of(p))->Some_0 =~= p.1@);
    }
}

/// The records of `s` added to `m` in order, later records overwriting
/// earlier ones.
pub open spec fn insert_all(m: Map<u32, StatusModel>, s: Seq<(u32, WindowStatus)>) -> Map<
    u32,
    StatusModel,
>
    decreases s.len(),
{
    if s.len() == 0 {
        m
    } else {
        insert_all(m.insert(s.first().0, s.first().1@), s.drop_first())
    }
}

proof fn lemma_insert_all_push(m: Map<u32, StatusModel>, s: Seq<(u32, WindowStatus)>, p: (
    u32,
    WindowStatus,
))
    ensures
        insert_all(m, s.push(p)) == insert_all(m, s).insert(p.0, p.1@),
    decreases s.len(),
{
    reveal_with_fuel(insert_all, 2);
    if s.len() == 0 {
        assert(s.push(p).first() == p);
        assert(s.push(p).drop_first() =~= Seq::<(u32, WindowStatus)>::empty());
        assert(insert_all(m, s.push(p)) == insert_all(
            m.insert(p.0, p.1@),
            s.push(p).drop_first(),
        ));
        assert(insert_all(m.insert(p.0, p.1@), s.push(p).drop_first()) == m.insert(p.0, p.1@));
    } else {
        assert(s.push(p).first() == s.first());
        assert(s.push(p).drop_first() =~= s.drop_first().push(p));
        lemma_insert_all_push(m.insert(s.first().0, s.first().1@), s.drop_first(), p);
    }
}

proof fn lemma_insert_all_map_of(s: Seq<(u32, WindowStatus)>)
    ensures
        insert_all(Map::empty(), s) == map_of(s),
    decreases s.len(),
{
    if s.len() > 0 {
        lemma_insert_all_map_of(s.drop_last());
        lemma_insert_all_push(Map::empty(), s.drop_last(), s.last());
        assert(s.drop_last().push(s.last()) =~= s);
    }
}

proof fn lemma_emit_front(s: Seq<(u32, WindowStatus)>)
    requires
        s.len() > 0,
    ensures
        emit(s) == line_of(s.first()) + emit(s.drop_first()),
    decreases s.len(),
{
    reveal_with_fuel(emit, 2);
    if s.len() == 1 {
        assert(s.drop_last() =~= Seq::<(u32, WindowStatus)>::empty());
        assert(s.drop_first() =~= Seq::<(u32, WindowStatus)>::empty());
        assert(emit(s.drop_last()) == Seq::<char>::empty());
        assert(emit(s) == Seq::empty() + line_of(s.last()));
        assert(Seq::empty() + line_of(s.last()) =~= line_of(s.first()) + Seq::<char>::empty());
    } else {
        lemma_emit_front(s.drop_last());
        assert(s.drop_last().first() == s.first());
        assert(s.drop_first().drop_last() =~= s.drop_last().drop_first());
        assert(s.drop_first().last() == s.last());
        assert(emit(s.drop_first()) == emit(s.drop_first().drop_last()) + line_of(s.last()));
        assert(emit(s) == (line_of(s.first()) + emit(s.drop_last().drop_first())) + line_of(
            s.last(),
        ));
        assert((line_of(s.first()) + emit(s.drop_last().drop_first())) + line_of(s.last())
            =~= line_of(s.first()) + (emit(s.drop_first().drop_last()) + line_of(s.last())));
    }
}

/// Reading back the emitted text folds every record, in order, into the map.
proof fn lemma_parse_emit(s: Seq<(u32, WindowStatus)>, m: Map<u32, StatusModel>)
    requires
        records_wf(s),
    ensures
        parse_lines_from(lines_from(emit(s), 0), m) == Some(insert_all(m, s)),
    decreases s.len(),
{
    if s.len() == 0 {
        assert(lines_from(emit(s), 0) =~= Seq::<Seq<char>>::empty());
    } else {
        lemma_emit_front(s);
        let p = s.first();
        assert(p.1.wf() && p.0 == p.1.window_id);
        lemma_parse_line_of(p);
        let l = line_of(p);
        let body = body_of(p);
        let rest = emit(s.drop_first());
        let e = l + rest;
        assert(emit(s) == e);
        assert forall|q: int| 0 <= q < body.len() implies #[trigger] e[q] != '\n' by {
            assert(e[q] == l[q]);
            assert(l[q] == body[q]);
        }
        assert(e[body.len() as int] == l[body.len() as int] == '\n');
        lemma_nl_end_is(e, 0, body.len() as int);
        assert(e.subrange(0, body.len() as int) =~= body);
        assert(l.len() == body.len() + 1);
        lemma_lines_shift(l, rest, 0);
        assert(rest.subrange(0, rest.len() as int) =~= rest);
        let ls = lines_from(e, 0);
        assert(ls == seq![body] + (if body.len() as int + 1 == e.len() {
            Seq::<Seq<char>>::empty()
        } else {
            lines_from(e, body.len() as int + 1)
        })) by {
            if body.len() as int + 1 == e.len() {
                assert(seq![body] + Seq::<Seq<char>>::empty() =~= seq![body]);
            }
        }
        assert(lines_from(e, body.len() as int + 1) == lines_from(rest, 0));
        if body.len() as int + 1 == e.len() {
            assert(rest.len() == 0);
            assert(lines_from(rest, 0) =~= Seq::<Seq<char>>::empty());
            assert(ls =~= seq![body] + lines_from(rest, 0));
        }
        assert(ls == seq![body] + lines_from(rest, 0));
        assert(ls.first() == body);
        assert(ls.drop_first() =~= lines_from(rest, 0));
        assert(body.len() > 0);
        let m2 = m.insert(p.1@.window_id, p.1@);
        assert(parse_lines_from(ls, m) == parse_lines_from(lines_from(rest, 0), m2));
        assert(records_wf(s.drop_first())) by {
            assert(forall|q: int|
                0 <= q < s.drop_first().len() ==> #[trigger] s.drop_first()[q] == s[q + 1]);
        }
        lemma_parse_emit(s.drop_first(), m2);
        assert(insert_all(m, s) == insert_all(m2, s.drop_first()));
    }
}

/// The round-trip law: the text emitted for any sequence of well-formed
/// records reads back as exactly the map those records hold — same keys,
/// same field values, independent of order.
pub proof fn lemma_store_round_trip(s: Seq<(u32, WindowStatus)>)
    requires
        records_wf(s),
    ensures
        parse_store(emit(s)) == Some(map_of(s)),
{
    lemma_parse_emit(s, Map::empty());
    lemma_insert_all_map_of(s);
}

impl WindowsMap {
    /// Write the store back out, one line per record.  Reading the result
    /// back (`try_from`, `from_or_empty`) yields a store with exactly the
    /// same contents: the round-trip law.
    #[verifier::rlimit(100)]
    pub fn serialize(&self) -> (r: String)
        requires
            self.recs_wf(),
        ensures
            parse_store(r@) == Some(self@),
    {
        let mut out = String::new();
        let n = self.windows.len();
        let mut idx: usize = 0;
        proof {
            assert(self.windows@.take(0) =~= Seq::<(u32, WindowStatus)>::empty());
        }
        while idx < n
            invariant
                n == self.windows@.len(),
                0 <= idx <= n,
                records_wf(self.windows@),
                out@ == emit(self.windows@.take(idx as int)),
            decreases n - idx,
        {
            let line = line_string(&self.windows[idx]);
            out.append(line.as_str());
            proof {
                assert(self.windows@.take(idx + 1).drop_last() =~= self.windows@.take(idx as int));
                assert(self.windows@.take(idx + 1).last() == self.windows@[idx as int]);
            }
            idx = idx + 1;
        }
        proof {
            assert(self.windows@.take(n as int) =~= self.windows@);
            lemma_store_round_trip(self.windows@);
        }
        out
    }
}

/// Print the line for one record.
fn line_string(p: &(u32, WindowStatus)) -> (r: String)
    ensures
        r@ == line_of(*p),
{
    proof {
        reveal_strlit(" ");
        reveal_strlit("\n");
        assert(" "@ =~= seq![' ']);
        assert("\n"@ =~= seq!['\n']);
    }
    let mut out = crate::numtext::u32_to_string(p.0);
    out.append(" ");
    out.append(p.1.x_px.as_str());
    out.append(" ");
    out.append(p.1.y_px.as_str());
    out.append(" ");
    out.append(p.1.w.as_str());
    out.append(" ");
    out.append(p.1.h.as_str());
    out.append(" ");
    let rows_txt = crate::numtext::u32_to_string(p.1.rows);
    out.append(rows_txt.as_str());
    out.append(" ");
    let columns_txt = crate::numtext::u32_to_string(p.1.columns);
    out.append(columns_txt.as_str());
    out.append(" ");
    let gx_txt = crate::numtext::u32_to_string(p.1.x_grid);
    out.append(gx_txt.as_str());
    out.append(" ");
    let gy_txt = crate::numtext::u32_to_string(p.1.y_grid);
    out.append(gy_txt.as_str());
    out.append("\n");
    assert(out@ == body_of(*p) + seq!['\n']);
    out
}

/// Store `ws` under `key` in the backing vector, overwriting any entry with
/// the same key.
fn upsert(vec: &mut Vec<(u32, WindowStatus)>, key: u32, ws: WindowStatus)
    requires
        keys_unique(old(vec)@),
    ensures
        map_of(final(vec)@) == map_of(old(vec)@).insert(key, ws@),
        keys_unique(final(vec)@),
        records_wf(old(vec)@) && ws.wf() && ws.window_id == key ==> records_wf(final(vec)@),
{
    let mut idx: usize = 0;
    let n = vec.len();
    while idx < n
        invariant
            n == vec@.len(),
            0 <= idx <= n,
            vec@ == old(vec)@,
            keys_unique(vec@),
            forall|k: int| 0 <= k < idx ==> (#[trigger] vec@[k]).0 != key,
        decreases n - idx,
    {
        if vec[idx].0 == key {
            proof {
                lemma_map_of_update(vec@, idx as int, ws);
            }
            vec.set(idx, (key, ws));
            proof {
                assert forall|a: int, b: int| 0 <= a < b < vec@.len() implies (
                #[trigger] vec@[a]).0 != (#[trigger] vec@[b]).0 by {
                    assert(old(vec)@[a].0 != old(vec)@[b].0);
                }
                assert(keys_unique(vec@));
                if records_wf(old(vec)@) && ws.wf() && ws.window_id == key {
                    assert forall|q: int| 0 <= q < vec@.len() implies (#[trigger] vec@[q]).1.wf()
                        && vec@[q].0 == vec@[q].1.window_id by {
                        if q != idx {
                            assert(old(vec)@[q].1.wf() && old(vec)@[q].0
                                == old(vec)@[q].1.window_id);
                        }
                    }
                    assert(records_wf(vec@));
                }
            }
            return ;
        }
        idx = idx + 1;
    }
    proof {
        lemma_map_of_absent(vec@, key);
    }
    vec.push((key, ws));
    proof {
        assert(vec@.drop_last() =~= old(vec)@);
        assert(map_of(vec@) == map_of(old(vec)@).insert(key, ws@));
        if records_wf(old(vec)@) && ws.wf() && ws.window_id == key {
            assert forall|q: int| 0 <= q < vec@.len() implies (#[trigger] vec@[q]).1.wf()
                && vec@[q].0 == vec@[q].1.window_id by {
                if q < vec@.len() - 1 {
                    assert(old(vec)@[q].1.wf() && old(vec)@[q].0 == old(vec)@[q].1.window_id);
                }
            }
            assert(records_wf(vec@));
        }
    }
}

} // verus!
