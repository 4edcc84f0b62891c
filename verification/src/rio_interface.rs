//! The semantic configuration layer of the vendor platform: it reads a fixed
//! set of named fields out of the store, validates and applies a batch of
//! named field updates, and builds whole network-interface sections.
//!
//! Updating is split in two: `plan_updates` validates the whole batch against
//! the store without touching it, and `commit_plan` applies a validated plan
//! in full. The caller performs the host-name side effect between the two and
//! persists once after the commit, so no reader ever sees a store that
//! reflects only part of a batch.
use vstd::prelude::*;

use crate::codec::{all_byte_chars, decode_comment, encode_comment, spec_decode, spec_encode};
use crate::ini::{
    find_idx, lookup, sec_find_idx, sec_lookup, set_in_section, spec_bool_of_text, spec_parse,
    EntriesModel, Ini, IniError, IniResult, IniSection, IniTypes, SectionModel, ValueModel,
};
use crate::text::str_eq;

verus! {

/// The lines of a vendor config text that name a serial: the first full
/// sixteen characters after `Serial=`, from the last line that has them,
/// with every leading zero removed.
pub open spec fn serial_pattern() -> Seq<char> {
    "Serial="@
}

/// Whether a full serial (the pattern and sixteen characters after it)
/// stands at position `i` of the line.
pub open spec fn serial_at(line: Seq<char>, i: int) -> bool {
    &&& 0 <= i
    &&& i + serial_pattern().len() + 16 <= line.len()
    &&& line.subrange(i, i + serial_pattern().len()) == serial_pattern()
}

/// The position of the first full serial in the line at or after `i`, or
/// `-1` when there is none.
pub open spec fn first_serial_from(line: Seq<char>, i: int) -> int
    decreases line.len() - i,
{
    if i < 0 || i + serial_pattern().len() + 16 > line.len() {
        -1
    } else if serial_at(line, i) {
        i
    } else {
        first_serial_from(line, i + 1)
    }
}

/// The sixteen serial characters of the line, if it holds a full serial.
pub open spec fn line_serial(line: Seq<char>) -> Option<Seq<char>> {
    let i = first_serial_from(line, 0);
    if i < 0 {
        None
    } else {
        Some(line.subrange(i + serial_pattern().len(), i + serial_pattern().len() + 16))
    }
}

/// The serial of the last line that holds one; all zeros when none does.
pub open spec fn last_serial(lines: Seq<Seq<char>>) -> Seq<char>
    decreases lines.len(),
{
    if lines.len() == 0 {
        Seq::new(16, |i: int| '0')
    } else {
        match line_serial(lines.last()) {
            Some(s) => s,
            None => last_serial(lines.drop_last()),
        }
    }
}

/// The sequence with every leading `0` removed.
pub open spec fn strip_zeros(s: Seq<char>) -> Seq<char>
    decreases s.len(),
{
    if s.len() > 0 && s[0] == '0' {
        strip_zeros(s.drop_first())
    } else {
        s
    }
}

/// What scanning a vendor config text for the device serial yields.
pub open spec fn spec_serial(text: Seq<char>) -> Seq<char> {
    strip_zeros(last_serial(crate::ini::split_lines(text)))
}

/// Scans the vendor config text for the device serial: the sixteen
/// characters after `Serial=` on the last line carrying them, leading zeros
/// removed. An occurrence with fewer than sixteen characters after it does
/// not count.
pub fn serial_from_text(text: &str) -> (r: String)
    ensures
        r@ == spec_serial(text@),
{
    let chars = crate::text::string_to_chars(text);
    let lines = crate::ini::split_lines_exec(&chars);
    let ghost glines = crate::ini::split_lines(text@);
    let n = lines.len();
    let mut serial: Option<Vec<char>> = None;
    let mut li: usize = 0;
    proof {
        assert(glines.subrange(0, 0) =~= Seq::<Seq<char>>::empty());
        lemma_last_serial_empty();
    }
    while li < n
        invariant
            li <= n,
            n == lines@.len(),
            crate::ini::lines_view(lines@) == glines,
            glines == crate::ini::split_lines(text@),
            match serial {
                Some(v) => v@ == last_serial(glines.subrange(0, li as int)) && v@.len() == 16,
                None => last_serial(glines.subrange(0, li as int)) == Seq::new(16, |i: int| '0'),
            },
        decreases n - li,
    {
        let line: &Vec<char> = &lines[li];
        proof {
            assert(glines[li as int] == line@);
        }
        match scan_line_serial(line) {
            Some(s) => {
                serial = Some(s);
            },
            None => {},
        }
        proof {
            let p = glines.subrange(0, (li + 1) as int);
            assert(p.last() == glines[li as int]);
            assert(p.drop_last() =~= glines.subrange(0, li as int));
        }
        li = li + 1;
    }
    proof {
        assert(glines.subrange(0, n as int) =~= glines);
    }
    match serial {
        Some(v) => {
            let stripped = strip_zeros_exec(&v);
            crate::text::chars_to_string(&stripped)
        },
        None => {
            let zeros: Vec<char> = make_zeros();
            let stripped = strip_zeros_exec(&zeros);
            crate::text::chars_to_string(&stripped)
        },
    }
}

/// Sixteen `0` characters.
fn make_zeros() -> (r: Vec<char>)
    ensures
        r@ == Seq::new(16, |i: int| '0'),
{
    let mut v: Vec<char> = Vec::new();
    let mut i: usize = 0;
    while i < 16
        invariant
            i <= 16,
            v@ == Seq::new(i as nat, |j: int| '0'),
        decreases 16 - i,
    {
        v.push('0');
        proof {
            assert(v@ =~= Seq::new((i + 1) as nat, |j: int| '0'));
        }
        i = i + 1;
    }
    v
}

/// All-zero text has no serial to strip.
proof fn lemma_last_serial_empty()
    ensures
        last_serial(Seq::<Seq<char>>::empty()) == Seq::new(16, |i: int| '0'),
{
}

/// The first full serial of one line, if any.
pub(crate) fn scan_line_serial(line: &Vec<char>) -> (r: Option<Vec<char>>)
    ensures
        r matches Some(v) ==> (line_serial(line@) == Some(v@) && v@.len() == 16),
        r is None ==> line_serial(line@) is None,
{
    let n = line.len();
    let pat = crate::text::string_to_chars("Serial=");
    proof {
        reveal_strlit("Serial=");
        assert(serial_pattern().len() == 7);
        assert(serial_pattern() =~= seq!['S', 'e', 'r', 'i', 'a', 'l', '=']);
    }
    let mut i: usize = 0;
    if n < 23 {
        proof {
            assert(first_serial_from(line@, 0) == -1);
        }
        return None;
    }
    while i <= n - 23
        invariant
            0 <= i,
            i <= n - 22,
            n == line@.len(),
            n >= 23,
            pat@ == serial_pattern(),
            first_serial_from(line@, 0) == first_serial_from(line@, i as int),
            serial_pattern() == seq!['S', 'e', 'r', 'i', 'a', 'l', '='],
        decreases n - i,
    {
        let mut k: usize = 0;
        let mut hit = true;
        while k < 7
            invariant
                k <= 7,
                i + 23 <= n,
                n == line@.len(),
                pat@ == serial_pattern(),
                serial_pattern() == seq!['S', 'e', 'r', 'i', 'a', 'l', '='],
                hit == (forall|j: int|
                    0 <= j < k ==> line@[i + j] == serial_pattern()[j]),
            decreases 7 - k,
        {
            let pc = pat[k];
            proof {
                assert(pat@[k as int] == serial_pattern()[k as int]);
            }
            if line[i + k] != pc {
                hit = false;
                proof {
                    assert(line@[i + k] != serial_pattern()[k as int]);
                }
                k = 7;
            } else {
                k = k + 1;
            }
        }
        if hit {
            proof {
                assert(line@.subrange(i as int, i + 7) =~= serial_pattern());
                assert(serial_at(line@, i as int));
                assert(first_serial_from(line@, i as int) == i as int);
            }
            let s = crate::text::subvec(line, i + 7, i + 23);
            return Some(s);
        }
        proof {
            assert(line@.subrange(i as int, i + 7) != serial_pattern()) by {
                let j = choose|j: int| 0 <= j < 7 && line@[i + j] != serial_pattern()[j];
                assert(line@.subrange(i as int, i + 7)[j] != serial_pattern()[j]);
            }
            assert(!serial_at(line@, i as int));
        }
        i = i + 1;
    }
    proof {
        assert(first_serial_from(line@, i as int) == -1);
    }
    None
}

/// The characters with leading zeros removed.
fn strip_zeros_exec(v: &Vec<char>) -> (r: Vec<char>)
    ensures
        r@ == strip_zeros(v@),
{
    let n = v.len();
    let mut i: usize = 0;
    proof {
        assert(v@.subrange(0, n as int) =~= v@);
    }
    while i < n && v[i] == '0'
        invariant
            i <= n,
            n == v@.len(),
            strip_zeros(v@) == strip_zeros(v@.subrange(i as int, n as int)),
        ensures
            i <= n,
            n == v@.len(),
            strip_zeros(v@) == strip_zeros(v@.subrange(i as int, n as int)),
            i < n ==> v@[i as int] != '0',
        decreases n - i,
    {
        proof {
            let p = v@.subrange(i as int, n as int);
            assert(p[0] == v@[i as int]);
            assert(p.drop_first() =~= v@.subrange((i + 1) as int, n as int));
        }
        i = i + 1;
    }
    let r = crate::text::subvec(v, i, n);
    proof {
        let p = v@.subrange(i as int, n as int);
        if i < n {
            assert(p[0] == v@[i as int]);
        }
        assert(strip_zeros(p) == p);
    }
    r
}

/// The text of the vendor's boolean-as-string convention.
pub fn boolc(b: bool) -> (r: String)
    ensures
        b ==> r@ == "True"@,
        !b ==> r@ == "False"@,
{
    if b {
        String::from_str("True")
    } else {
        String::from_str("False")
    }
}

/// The section of the store that holds every semantic field.
pub open spec fn settings_name() -> Seq<char> {
    "systemsettings"@
}

/// A boolean field stored as a native boolean value.
pub open spec fn bool_field(e: EntriesModel, key: Seq<char>) -> Result<bool, IniError> {
    match lookup(e, key) {
        None => Err(IniError::MissingKey),
        Some(v) => match v {
            ValueModel::Boolean(b) => Ok(b),
            _ => Err(IniError::TypeMismatch),
        },
    }
}

/// A boolean field stored as a case-insensitive `true`/`false` text.
pub open spec fn bool_str_field(e: EntriesModel, key: Seq<char>) -> Result<bool, IniError> {
    match lookup(e, key) {
        None => Err(IniError::MissingKey),
        Some(v) => match spec_bool_of_text(v) {
            Some(b) => Ok(b),
            None => Err(IniError::TypeMismatch),
        },
    }
}

/// A plain text field.
pub open spec fn text_field(e: EntriesModel, key: Seq<char>) -> Result<Seq<char>, IniError> {
    match lookup(e, key) {
        None => Err(IniError::MissingKey),
        Some(v) => match v {
            ValueModel::Text(t) => Ok(t),
            _ => Err(IniError::TypeMismatch),
        },
    }
}

/// A text field held in the codec's alphabet, decoded.
pub open spec fn comment_field(e: EntriesModel, key: Seq<char>) -> Result<Seq<char>, IniError> {
    match text_field(e, key) {
        Err(er) => Err(er),
        Ok(t) => match spec_decode(t) {
            Some(d) => Ok(d),
            None => Err(IniError::Codec),
        },
    }
}

/// The mathematical value of a snapshot's store-derived fields.
pub struct SnapModel {
    pub no_fpga_app: bool,
    pub console_out: bool,
    pub no_app: bool,
    pub safe_mode: bool,
    pub host_name: Seq<char>,
    pub comment: Seq<char>,
}

/// What reading every semantic field of a store yields: the first failing
/// field aborts the whole snapshot.
pub open spec fn spec_snapshot(secs: Seq<SectionModel>) -> Result<SnapModel, IniError> {
    match sec_lookup(secs, settings_name()) {
        None => Err(IniError::MissingSection),
        Some(sm) => {
            let e = sm.entries;
            match bool_field(e, "NoFPGAApp.enabled"@) {
                Err(er) => Err(er),
                Ok(b1) => match bool_field(e, "ConsoleOut.enabled"@) {
                    Err(er) => Err(er),
                    Ok(b2) => match bool_str_field(e, "NoApp.enabled"@) {
                        Err(er) => Err(er),
                        Ok(b3) => match bool_str_field(e, "SafeMode.enabled"@) {
                            Err(er) => Err(er),
                            Ok(b4) => match text_field(e, "host_name"@) {
                                Err(er) => Err(er),
                                Ok(h) => match comment_field(e, "Comment"@) {
                                    Err(er) => Err(er),
                                    Ok(c) => Ok(
                                        (SnapModel {
                                            no_fpga_app: b1,
                                            console_out: b2,
                                            no_app: b3,
                                            safe_mode: b4,
                                            host_name: h,
                                            comment: c,
                                        }),
                                    ),
                                },
                            },
                        },
                    },
                },
            }
        },
    }
}

/// The vendor platform's state: its serial, its configuration store, and
/// its image version.
#[derive(Debug)]
pub struct RioData {
    pub serial: String,
    pub rt_ini: Ini,
    pub image_version: String,
}

/// The image version named in an image metadata file text.
pub open spec fn spec_image_version(text: Seq<char>) -> Result<Seq<char>, IniError> {
    match spec_parse(text) {
        Err(e) => Err(e),
        Ok(secs) => match sec_lookup(secs, "ImageMetadata"@) {
            None => Err(IniError::MissingSection),
            Some(sm) => match lookup(sm.entries, "IMAGEVERSION"@) {
                None => Err(IniError::MissingKey),
                Some(v) => match v {
                    ValueModel::Text(t) => Ok(t),
                    _ => Err(IniError::TypeMismatch),
                },
            },
        },
    }
}

/// One externally supplied field value, as the HTTP layer hands it over:
/// a boolean, a text, or anything else (which no field accepts).
#[derive(Debug, Clone)]
pub enum UpdateValue {
    Bool(bool),
    Text(String),
    Other,
}

/// The mathematical value of an `UpdateValue`.
pub enum UpdateValueModel {
    Bool(bool),
    Text(Seq<char>),
    Other,
}

impl View for UpdateValue {
    type V = UpdateValueModel;

    open spec fn view(&self) -> UpdateValueModel {
        match self {
            UpdateValue::Bool(b) => UpdateValueModel::Bool(*b),
            UpdateValue::Text(s) => UpdateValueModel::Text(s@),
            UpdateValue::Other => UpdateValueModel::Other,
        }
    }
}

/// A validated batch of updates: the store values to set in the settings
/// section, in order, and the host name to mirror into the system, if any.
pub struct UpdatePlan {
    pub sets: Vec<(String, IniTypes)>,
    pub hostname: Option<String>,
}

/// The mathematical value of an `UpdatePlan`.
pub struct PlanModel {
    pub sets: Seq<(Seq<char>, ValueModel)>,
    pub hostname: Option<Seq<char>>,
}

impl View for UpdatePlan {
    type V = PlanModel;

    open spec fn view(&self) -> PlanModel {
        PlanModel {
            sets: Seq::new(self.sets@.len(), |i: int| (self.sets@[i].0@, self.sets@[i].1@)),
            hostname: match self.hostname {
                Some(h) => Some(h@),
                None => None,
            },
        }
    }
}

/// What one named field update denotes: the store key, the typed value to
/// write, and whether this is the host-name field; or the coercion error.
pub open spec fn spec_field_target(name: Seq<char>, v: UpdateValueModel) -> Result<
    (Seq<char>, ValueModel, bool),
    IniError,
> {
    if name == "no_fpga_app"@ {
        match v {
            UpdateValueModel::Bool(b) => Ok(("NoFPGAApp.enabled"@, ValueModel::Boolean(b), false)),
            _ => Err(IniError::BadRequest),
        }
    } else if name == "console_out"@ {
        match v {
            UpdateValueModel::Bool(b) => Ok(("ConsoleOut.enabled"@, ValueModel::Boolean(b), false)),
            _ => Err(IniError::BadRequest),
        }
    } else if name == "no_app"@ {
        match v {
            UpdateValueModel::Bool(b) => Ok(
                (
                    "NoApp.enabled"@,
                    ValueModel::Text(
                        if b {
                            "True"@
                        } else {
                            "False"@
                        },
                    ),
                    false,
                ),
            ),
            _ => Err(IniError::BadRequest),
        }
    } else if name == "safe_mode"@ {
        match v {
            UpdateValueModel::Bool(b) => Ok(
                (
                    "SafeMode.enabled"@,
                    ValueModel::Text(
                        if b {
                            "True"@
                        } else {
                            "False"@
                        },
                    ),
                    false,
                ),
            ),
            _ => Err(IniError::BadRequest),
        }
    } else if name == "host_name"@ {
        match v {
            UpdateValueModel::Text(s) => Ok(("host_name"@, ValueModel::Text(s), true)),
            _ => Err(IniError::BadRequest),
        }
    } else if name == "comment"@ {
        match v {
            UpdateValueModel::Text(s) => if all_byte_chars(s) {
                Ok(("Comment"@, ValueModel::Text(spec_encode(s)), false))
            } else {
                Err(IniError::BadRequest)
            },
            _ => Err(IniError::BadRequest),
        }
    } else {
        Err(IniError::BadRequest)
    }
}

/// What validating a whole batch against the settings entries yields: the
/// first invalid field or missing key aborts the batch; a later host-name
/// field wins over an earlier one.
pub open spec fn spec_plan(e: EntriesModel, updates: Seq<(Seq<char>, UpdateValueModel)>) -> Result<
    PlanModel,
    IniError,
>
    decreases updates.len(),
{
    if updates.len() == 0 {
        Ok((PlanModel { sets: Seq::empty(), hostname: None }))
    } else {
        match spec_field_target(updates[0].0, updates[0].1) {
            Err(er) => Err(er),
            Ok((key, val, is_host)) => {
                if find_idx(e, key) < 0 {
                    Err(IniError::MissingKey)
                } else {
                    match spec_plan(e, updates.drop_first()) {
                        Err(er) => Err(er),
                        Ok(rest) => Ok(
                            (PlanModel {
                                sets: seq![(key, val)] + rest.sets,
                                hostname: match rest.hostname {
                                    Some(h) => Some(h),
                                    None => if is_host {
                                        match val {
                                            ValueModel::Text(s) => Some(s),
                                            _ => None,
                                        }
                                    } else {
                                        None
                                    },
                                },
                            }),
                        ),
                    }
                }
            },
        }
    }
}

pub open spec fn updates_view(u: Seq<(String, UpdateValue)>) -> Seq<(Seq<char>, UpdateValueModel)> {
    Seq::new(u.len(), |i: int| (u[i].0@, u[i].1@))
}

/// Applying a plan's sets to a store, one after the other.
pub open spec fn spec_apply(secs: Seq<SectionModel>, sets: Seq<(Seq<char>, ValueModel)>) -> Seq<
    SectionModel,
>
    decreases sets.len(),
{
    if sets.len() == 0 {
        secs
    } else {
        spec_apply(set_in_section(secs, settings_name(), sets[0].0, sets[0].1), sets.drop_first())
    }
}

/// Whether every key of the plan exists in the settings section of the
/// store, which `commit_plan` needs so nothing can fail halfway.
pub open spec fn plan_ok(secs: Seq<SectionModel>, p: PlanModel) -> bool {
    &&& sec_find_idx(secs, settings_name()) >= 0
    &&& forall|i: int|
        0 <= i < p.sets.len() ==> find_idx(
            secs[sec_find_idx(secs, settings_name())].entries,
            #[trigger] p.sets[i].0,
        ) >= 0
}

impl RioData {
    /// Builds the platform state from the three file texts: the serial
    /// config, the runtime configuration store, and the image metadata.
    pub fn new(serial_text: &str, rt_ini_text: &str, image_meta_text: &str) -> (r: IniResult<
        RioData,
    >)
        ensures
            ({
                match spec_parse(rt_ini_text@) {
                    Err(e) => r == IniResult::<RioData>::Err(e),
                    Ok(secs) => match spec_image_version(image_meta_text@) {
                        Err(e) => r == IniResult::<RioData>::Err(e),
                        Ok(iv) => r matches Ok(d) && d.serial@ == spec_serial(serial_text@)
                            && d.rt_ini@ == secs && d.image_version@ == iv,
                    },
                }
            }),
    {
        let serial = serial_from_text(serial_text);
        let rt_ini = match crate::ini::read_ini(rt_ini_text) {
            Ok(ini) => ini,
            Err(e) => {
                return Err(e);
            },
        };
        let image_version = match crate::ini::read_ini_field(image_meta_text, "ImageMetadata", "IMAGEVERSION")
        {
            Err(e) => {
                return Err(e);
            },
            Ok(v) => match v.to_string() {
                Some(s) => s,
                None => {
                    return Err(IniError::TypeMismatch);
                },
            },
        };
        Ok(RioData { serial, rt_ini, image_version })
    }

    /// Reads every semantic field out of the store: the flags, the host
    /// name, and the comment decoded through the codec. The first missing
    /// or mistyped field aborts the snapshot with its error.
    pub fn to_snapshot(&self) -> (r: IniResult<RioSnapshot>)
        ensures
            ({
                match spec_snapshot(self.rt_ini@) {
                    Ok(m) => r matches Ok(s) && s.serial@ == self.serial@ && s.image_version@
                        == self.image_version@ && s.no_fpga_app == m.no_fpga_app && s.console_out
                        == m.console_out && s.no_app == m.no_app && s.safe_mode == m.safe_mode
                        && s.host_name@ == m.host_name && s.comment@ == m.comment,
                    Err(e) => r == IniResult::<RioSnapshot>::Err(e),
                }
            }),
    {
        let sec = match self.rt_ini.get("systemsettings") {
            Some(s) => s,
            None => {
                return Err(IniError::MissingSection);
            },
        };
        let no_fpga_app = match sec.get("NoFPGAApp.enabled") {
            None => {
                return Err(IniError::MissingKey);
            },
            Some(v) => match v {
                IniTypes::Boolean(b) => *b,
                _ => {
                    return Err(IniError::TypeMismatch);
                },
            },
        };
        let console_out = match sec.get("ConsoleOut.enabled") {
            None => {
                return Err(IniError::MissingKey);
            },
            Some(v) => match v {
                IniTypes::Boolean(b) => *b,
                _ => {
                    return Err(IniError::TypeMismatch);
                },
            },
        };
        let no_app = match sec.get("NoApp.enabled") {
            None => {
                return Err(IniError::MissingKey);
            },
            Some(v) => match v.dup().to_boolean_from_string() {
                Some(b) => b,
                None => {
                    return Err(IniError::TypeMismatch);
                },
            },
        };
        let safe_mode = match sec.get("SafeMode.enabled") {
            None => {
                return Err(IniError::MissingKey);
            },
            Some(v) => match v.dup().to_boolean_from_string() {
                Some(b) => b,
                None => {
                    return Err(IniError::TypeMismatch);
                },
            },
        };
        let host_name = match sec.get("host_name") {
            None => {
                return Err(IniError::MissingKey);
            },
            Some(v) => match v.dup().to_string() {
                Some(s) => s,
                None => {
                    return Err(IniError::TypeMismatch);
                },
            },
        };
        let comment_enc = match sec.get("Comment") {
            None => {
                return Err(IniError::MissingKey);
            },
            Some(v) => match v.dup().to_string() {
                Some(s) => s,
                None => {
                    return Err(IniError::TypeMismatch);
                },
            },
        };
        let comment = match decode_comment(comment_enc.as_str()) {
            Ok(c) => c,
            Err(e) => {
                return Err(e);
            },
        };
        Ok(
            RioSnapshot {
                serial: self.serial.clone(),
                image_version: self.image_version.clone(),
                no_fpga_app,
                console_out,
                no_app,
                safe_mode,
                host_name,
                comment,
            },
        )
    }

    /// Validates a whole batch of named field updates against the store
    /// without touching it. Every field is resolved to its store key and
    /// coerced to its kind; the first unknown name, wrong kind or missing
    /// key aborts with its error, and the host name to mirror is handed
    /// back for the caller's side effect.
    pub fn plan_updates(&self, updates: &Vec<(String, UpdateValue)>) -> (r: IniResult<UpdatePlan>)
        ensures
            ({
                match sec_lookup(self.rt_ini@, settings_name()) {
                    None => r == IniResult::<UpdatePlan>::Err(IniError::MissingSection),
                    Some(sm) => match spec_plan(sm.entries, updates_view(updates@)) {
                        Ok(p) => r matches Ok(plan) && plan@ == p && plan_ok(self.rt_ini@, plan@),
                        Err(e) => r == IniResult::<UpdatePlan>::Err(e),
                    },
                }
            }),
    {
        let sec = match self.rt_ini.get("systemsettings") {
            Some(s) => s,
            None => {
                return Err(IniError::MissingSection);
            },
        };
        let ghost e = sec@.entries;
        let ghost uv = updates_view(updates@);
        let n = updates.len();
        let mut sets: Vec<(String, IniTypes)> = Vec::new();
        let mut hostname: Option<String> = None;
        let mut i: usize = 0;
        proof {
            assert(uv.subrange(0, n as int) =~= uv);
        }
        while i < n
            invariant
                i <= n,
                n == updates@.len(),
                uv == updates_view(updates@),
                e == sec@.entries,
                sec_lookup(self.rt_ini@, settings_name()) == Some(sec@),
                forall|j: int| 0 <= j < sets@.len() ==> find_idx(e, #[trigger] sets@[j].0@) >= 0,
                ({
                    let done = PlanModel {
                        sets: Seq::new(sets@.len(), |j: int| (sets@[j].0@, sets@[j].1@)),
                        hostname: match hostname {
                            Some(h) => Some(h@),
                            None => None,
                        },
                    };
                    match spec_plan(e, uv.subrange(i as int, n as int)) {
                        Err(er) => spec_plan(e, uv) == Result::<PlanModel, IniError>::Err(er),
                        Ok(rest) => spec_plan(e, uv) == Result::<PlanModel, IniError>::Ok(
                            (PlanModel {
                                sets: done.sets + rest.sets,
                                hostname: match rest.hostname {
                                    Some(h) => Some(h),
                                    None => done.hostname,
                                },
                            }),
                        ),
                    }
                }),
            decreases n - i,
        {
            let name: &String = &updates[i].0;
            let value: &UpdateValue = &updates[i].1;
            let ghost sub = uv.subrange(i as int, n as int);
            proof {
                assert(sub[0] == (updates@[i as int].0@, updates@[i as int].1@));
                assert(sub.drop_first() =~= uv.subrange((i + 1) as int, n as int));
            }
            let target: (String, IniTypes, bool) = if str_eq(name.as_str(), "no_fpga_app") {
                match value {
                    UpdateValue::Bool(b) => (
                        String::from_str("NoFPGAApp.enabled"),
                        IniTypes::Boolean(*b),
                        false,
                    ),
                    _ => {
                        return Err(IniError::BadRequest);
                    },
                }
            } else if str_eq(name.as_str(), "console_out") {
                match value {
                    UpdateValue::Bool(b) => (
                        String::from_str("ConsoleOut.enabled"),
                        IniTypes::Boolean(*b),
                        false,
                    ),
                    _ => {
                        return Err(IniError::BadRequest);
                    },
                }
            } else if str_eq(name.as_str(), "no_app") {
                match value {
                    UpdateValue::Bool(b) => (
                        String::from_str("NoApp.enabled"),
                        IniTypes::Text(boolc(*b)),
                        false,
                    ),
                    _ => {
                        return Err(IniError::BadRequest);
                    },
                }
            } else if str_eq(name.as_str(), "safe_mode") {
                match value {
                    UpdateValue::Bool(b) => (
                        String::from_str("SafeMode.enabled"),
                        IniTypes::Text(boolc(*b)),
                        false,
                    ),
                    _ => {
                        return Err(IniError::BadRequest);
                    },
                }
            } else if str_eq(name.as_str(), "host_name") {
                match value {
                    UpdateValue::Text(s) => (
                        String::from_str("host_name"),
                        IniTypes::Text(s.clone()),
                        true,
                    ),
                    _ => {
                        return Err(IniError::BadRequest);
                    },
                }
            } else if str_eq(name.as_str(), "comment") {
                match value {
                    UpdateValue::Text(s) => match encode_comment(s.as_str()) {
                        Ok(enc) => (String::from_str("Comment"), IniTypes::Text(enc), false),
                        Err(_) => {
                            return Err(IniError::BadRequest);
                        },
                    },
                    _ => {
                        return Err(IniError::BadRequest);
                    },
                }
            } else {
                return Err(IniError::BadRequest);
            };
            let ghost gkey = target.0@;
            let ghost gval = target.1@;
            let ghost gh = target.2;
            proof {
                assert(spec_field_target(sub[0].0, sub[0].1) == Result::<
                    (Seq<char>, ValueModel, bool),
                    IniError,
                >::Ok((gkey, gval, gh)));
            }
            match sec.get(target.0.as_str()) {
                None => {
                    proof {
                        crate::ini::lemma_find_idx(e, gkey);
                    }
                    return Err(IniError::MissingKey);
                },
                Some(_) => {
                    proof {
                        crate::ini::lemma_find_idx(e, gkey);
                        assert(find_idx(e, gkey) >= 0);
                    }
                },
            }
            if target.2 {
                match value {
                    UpdateValue::Text(s) => {
                        hostname = Some(s.clone());
                    },
                    _ => {},
                }
            }
            let ghost prev = Seq::new(sets@.len(), |j: int| (sets@[j].0@, sets@[j].1@));
            sets.push((target.0, target.1));
            proof {
                let cur = Seq::new(sets@.len(), |j: int| (sets@[j].0@, sets@[j].1@));
                assert(cur =~= prev.push((gkey, gval)));
                let nxt = uv.subrange((i + 1) as int, n as int);
                match spec_plan(e, nxt) {
                    Err(_) => {},
                    Ok(rest) => {
                        assert(cur + rest.sets =~= prev + (seq![(gkey, gval)] + rest.sets));
                    },
                }
            }
            i = i + 1;
        }
        proof {
            assert(uv.subrange(n as int, n as int) =~= Seq::<(Seq<char>, UpdateValueModel)>::empty());
            match spec_plan(e, uv) {
                Ok(p) => {
                    assert(p.sets =~= Seq::new(sets@.len(), |j: int| (sets@[j].0@, sets@[j].1@))
                        + Seq::<(Seq<char>, ValueModel)>::empty());
                },
                Err(_) => {},
            }
        }
        Ok(UpdatePlan { sets, hostname })
    }

    /// Applies a validated plan to the store, every field of it, and
    /// nothing else. The caller persists the store afterwards, exactly
    /// once.
    pub fn commit_plan(&mut self, plan: &UpdatePlan)
        requires
            plan_ok(old(self).rt_ini@, plan@),
        ensures
            final(self).rt_ini@ == spec_apply(old(self).rt_ini@, plan@.sets),
            final(self).serial == old(self).serial,
            final(self).image_version == old(self).image_version,
    {
        let n = plan.sets.len();
        let mut i: usize = 0;
        proof {
            assert(plan@.sets.subrange(0, n as int) =~= plan@.sets);
        }
        while i < n
            invariant
                i <= n,
                n == plan.sets@.len(),
                n == plan@.sets.len(),
                self.serial == old(self).serial,
                self.image_version == old(self).image_version,
                plan_ok(self.rt_ini@, (PlanModel {
                    sets: plan@.sets.subrange(i as int, n as int),
                    hostname: plan@.hostname,
                })),
                spec_apply(old(self).rt_ini@, plan@.sets) == spec_apply(
                    self.rt_ini@,
                    plan@.sets.subrange(i as int, n as int),
                ),
            decreases n - i,
        {
            let ghost before = self.rt_ini@;
            let ghost sub = plan@.sets.subrange(i as int, n as int);
            proof {
                assert(sub[0] == plan@.sets[i as int]);
                assert(sub.drop_first() =~= plan@.sets.subrange((i + 1) as int, n as int));
            }
            let key: &String = &plan.sets[i].0;
            let value: &IniTypes = &plan.sets[i].1;
            proof {
                assert(key@ == plan@.sets[i as int].0);
                assert(value@ == plan@.sets[i as int].1);
            }
            self.rt_ini.upsert_key("systemsettings", key.as_str(), value.dup());
            proof {
                let si = sec_find_idx(before, settings_name());
                let after = self.rt_ini@;
                assert(after == set_in_section(before, settings_name(), key@, value@));
                crate::ini::lemma_sec_find_idx(before, settings_name());
                assert(0 <= si < before.len());
                assert(sub[0].0 == key@);
                let pm = PlanModel { sets: sub, hostname: plan@.hostname };
                assert(plan_ok(before, pm));
                assert(pm.sets[0].0 == sub[0].0);
                assert(find_idx(before[si].entries, pm.sets[0].0) >= 0);
                assert(find_idx(before[si].entries, key@) >= 0);
                assert(after == before.update(
                    si,
                    (SectionModel {
                        name: before[si].name,
                        entries: crate::ini::upsert_entry(before[si].entries, key@, value@),
                    }),
                ));
                assert(after.len() == before.len());
                assert(forall|j: int| 0 <= j < before.len() ==> after[j].name == before[j].name);
                crate::ini::lemma_sec_find_idx_same_names(before, after, settings_name());
                let eb = before[si].entries;
                let ea = after[si].entries;
                crate::ini::lemma_find_idx(eb, key@);
                assert(ea == eb.update(find_idx(eb, key@), (key@, value@)));
                assert(ea.len() == eb.len());
                assert forall|j: int| 0 <= j < eb.len() implies eb[j].0 == ea[j].0 by {
                    let ki = find_idx(eb, key@);
                    assert(eb[ki].0 == key@);
                }
                assert forall|j: int|
                    0 <= j < sub.drop_first().len() implies find_idx(
                    ea,
                    sub.drop_first()[j].0,
                ) >= 0 by {
                    crate::ini::lemma_find_idx_same_keys(eb, ea, sub.drop_first()[j].0);
                    assert(sub.drop_first()[j] == sub[j + 1]);
                }
            }
            i = i + 1;
        }
        proof {
            assert(plan@.sets.subrange(n as int, n as int) =~= Seq::<(Seq<char>,
                ValueModel)>::empty());
        }
    }
}

/// Every value a validated plan writes is a boolean or a text, never a
/// float, so it is well formed for the store.
pub proof fn lemma_plan_values_wf(e: EntriesModel, updates: Seq<(Seq<char>, UpdateValueModel)>)
    ensures
        spec_plan(e, updates) matches Ok(p) ==> forall|i: int|
            0 <= i < p.sets.len() ==> crate::ini::value_wf(#[trigger] p.sets[i].1),
    decreases updates.len(),
{
    if updates.len() > 0 {
        lemma_plan_values_wf(e, updates.drop_first());
        match spec_field_target(updates[0].0, updates[0].1) {
            Err(_) => {},
            Ok((key, val, _)) => {
                assert(crate::ini::value_wf(val));
                match spec_plan(e, updates) {
                    Err(_) => {},
                    Ok(p) => {
                        match spec_plan(e, updates.drop_first()) {
                            Err(_) => {},
                            Ok(rest) => {
                                assert forall|i: int|
                                    0 <= i < p.sets.len() implies crate::ini::value_wf(
                                    p.sets[i].1,
                                ) by {
                                    if i == 0 {
                                        assert(p.sets[0] == (key, val));
                                    } else {
                                        assert(p.sets[i] == rest.sets[i - 1]);
                                    }
                                }
                            },
                        }
                    },
                }
            },
        }
    }
}

/// A committed batch keeps the store well formed: every planned write goes
/// through `set_in_section` with a well-formed value.
pub proof fn lemma_apply_keeps_wf(secs: Seq<SectionModel>, sets: Seq<(Seq<char>, ValueModel)>)
    requires
        crate::ini::ini_wf(secs),
        forall|i: int| 0 <= i < sets.len() ==> crate::ini::value_wf(#[trigger] sets[i].1),
    ensures
        crate::ini::ini_wf(spec_apply(secs, sets)),
    decreases sets.len(),
{
    if sets.len() > 0 {
        crate::ini::lemma_set_in_section_wf(secs, settings_name(), sets[0].0, sets[0].1);
        let secs2 = set_in_section(secs, settings_name(), sets[0].0, sets[0].1);
        assert forall|i: int|
            0 <= i < sets.drop_first().len() implies crate::ini::value_wf(
            sets.drop_first()[i].1,
        ) by {
            assert(sets.drop_first()[i] == sets[i + 1]);
        }
        lemma_apply_keeps_wf(secs2, sets.drop_first());
    }
}

/// The semantic fields of the platform, read for the HTTP layer to
/// serialize.
#[derive(Debug, Clone)]
pub struct RioSnapshot {
    pub serial: String,
    pub image_version: String,
    pub no_fpga_app: bool,
    pub console_out: bool,
    pub no_app: bool,
    pub safe_mode: bool,
    pub host_name: String,
    pub comment: String,
}

/// The `eth0` section of a static-IP configuration.
pub open spec fn static_ip_section(ip: Seq<char>, gateway: Seq<char>, dns: Seq<char>) -> SectionModel {
    SectionModel {
        name: "eth0"@,
        entries: seq![
            ("dhcpenabled"@, ValueModel::Text("0"@)),
            ("linklocalenabled"@, ValueModel::Text("0"@)),
            ("IP_Address"@, ValueModel::Text(ip)),
            ("Subnet_Mask"@, ValueModel::Text("255.255.255.0"@)),
            ("Gateway"@, ValueModel::Text(gateway)),
            ("DNS_Address"@, ValueModel::Text(dns)),
            ("Mode"@, ValueModel::Text("TCPIP"@)),
            ("MediaMode"@, ValueModel::Text("Auto"@)),
        ],
    }
}

/// The `eth0` section of a DHCP configuration.
pub open spec fn dhcp_section(ip: Seq<char>) -> SectionModel {
    SectionModel {
        name: "eth0"@,
        entries: seq![
            ("dhcpenabled"@, ValueModel::Text("1"@)),
            ("linklocalenabled"@, ValueModel::Text("1"@)),
            ("Mode"@, ValueModel::Text("TCPIP"@)),
            ("MediaMode"@, ValueModel::Text("Auto"@)),
            ("dhcpipaddr"@, ValueModel::Text(ip)),
        ],
    }
}

/// Replaces the `eth0` section wholesale with a static-IP configuration:
/// any keys an old section held beyond these are lost. The caller persists
/// the store afterwards.
pub fn write_static_ip(ini: &mut Ini, ip: String, gateway: String, dns: String)
    ensures
        ({
            let sec = static_ip_section(ip@, gateway@, dns@);
            let si = sec_find_idx(old(ini)@, "eth0"@);
            &&& si >= 0 ==> final(ini)@ == old(ini)@.update(si, sec)
            &&& si < 0 ==> final(ini)@ == old(ini)@.push(sec)
        }),
{
    let mut section = IniSection::new("eth0");
    section.push_key("dhcpenabled", IniTypes::Text(String::from_str("0")));
    section.push_key("linklocalenabled", IniTypes::Text(String::from_str("0")));
    section.push_key("IP_Address", IniTypes::Text(ip));
    section.push_key("Subnet_Mask", IniTypes::Text(String::from_str("255.255.255.0")));
    section.push_key("Gateway", IniTypes::Text(gateway));
    section.push_key("DNS_Address", IniTypes::Text(dns));
    section.push_key("Mode", IniTypes::Text(String::from_str("TCPIP")));
    section.push_key("MediaMode", IniTypes::Text(String::from_str("Auto")));
    proof {
        assert(section@.entries =~= static_ip_section(ip@, gateway@, dns@).entries);
        assert(section@ == static_ip_section(ip@, gateway@, dns@));
    }
    ini.create_and_set(section);
}

/// Replaces the `eth0` section wholesale with a DHCP configuration. The
/// caller persists the store afterwards.
pub fn write_dhcp(ini: &mut Ini, ip: String)
    ensures
        ({
            let sec = dhcp_section(ip@);
            let si = sec_find_idx(old(ini)@, "eth0"@);
            &&& si >= 0 ==> final(ini)@ == old(ini)@.update(si, sec)
            &&& si < 0 ==> final(ini)@ == old(ini)@.push(sec)
        }),
{
    let mut section = IniSection::new("eth0");
    section.push_key("dhcpenabled", IniTypes::Text(String::from_str("1")));
    section.push_key("linklocalenabled", IniTypes::Text(String::from_str("1")));
    section.push_key("Mode", IniTypes::Text(String::from_str("TCPIP")));
    section.push_key("MediaMode", IniTypes::Text(String::from_str("Auto")));
    section.push_key("dhcpipaddr", IniTypes::Text(ip));
    proof {
        assert(section@.entries =~= dhcp_section(ip@).entries);
        assert(section@ == dhcp_section(ip@));
    }
    ini.create_and_set(section);
}

} // verus!
