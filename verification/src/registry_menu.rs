use vstd::prelude::*;

use crate::launch::{dir_flag, new_window_flag};
use crate::text::{chars_of, find_char};

verus! {

// ---------------------------------------------------------------------------
// UTF-16

/// The UTF-16 code units of one character: the character itself when it
/// lies in the basic multilingual plane, else its surrogate pair.
pub open spec fn utf16_of_char(c: char) -> Seq<u16> {
    let v = c as u32;
    if v < 0x10000 {
        seq![v as u16]
    } else {
        let w = (v - 0x10000) as u32;
        seq![(0xD800 + w / 0x400) as u16, (0xDC00 + w % 0x400) as u16]
    }
}

/// The UTF-16 encoding of a character sequence.
pub open spec fn utf16(s: Seq<char>) -> Seq<u16>
    decreases s.len(),
{
    if s.len() == 0 {
        Seq::empty()
    } else {
        utf16(s.drop_last()) + utf16_of_char(s.last())
    }
}

/// Appends the UTF-16 encoding of `chars[from..]` to `out`.
pub fn push_utf16(out: &mut Vec<u16>, chars: &Vec<char>, from: usize)
    requires
        from <= chars.len(),
    ensures
        final(out)@ == old(out)@ + utf16(chars@.subrange(from as int, chars@.len() as int)),
{
    let ghost start = out@;
    let mut i: usize = from;
    while i < chars.len()
        invariant
            from <= i <= chars.len(),
            out@ == start + utf16(chars@.subrange(from as int, i as int)),
        decreases chars.len() - i,
    {
        let c = chars[i];
        let v: u32 = c as u32;
        if v < 0x10000 {
            out.push(v as u16);
        } else {
            let w: u32 = v - 0x10000;
            out.push((0xD800 + w / 0x400) as u16);
            out.push((0xDC00 + w % 0x400) as u16);
        }
        proof {
            let next = chars@.subrange(from as int, i + 1);
            assert(next.drop_last() =~= chars@.subrange(from as int, i as int));
            assert(next.last() == c);
        }
        i = i + 1;
    }
}

/// The UTF-16 encoding of `s` followed by a terminating NUL unit, as the
/// wide-string Win32 functions take it.
pub fn os_str_to_wide(s: &str) -> (wide: Vec<u16>)
    ensures
        wide@ == utf16(s@).push(0),
{
    let chars = chars_of(s);
    let mut wide: Vec<u16> = Vec::new();
    push_utf16(&mut wide, &chars, 0);
    assert(chars@.subrange(0, chars@.len() as int) =~= s@);
    wide.push(0);
    wide
}

// ---------------------------------------------------------------------------
// What gets written

/// The Explorer verb keys under `HKEY_CLASSES_ROOT`: folders, the empty
/// folder background and files, so that the entry shows on all three.
pub open spec fn verb_key_paths() -> Seq<Seq<char>> {
    seq![
        "Directory\\shell\\meatshell"@,
        "Directory\\Background\\shell\\meatshell"@,
        "*\\shell\\meatshell"@,
    ]
}

/// The verb key paths, in the order in which they are written.
pub fn verb_keys() -> (keys: Vec<String>)
    ensures
        keys.deep_view() == verb_key_paths(),
{
    let mut keys: Vec<String> = Vec::new();
    keys.push(String::from_str("Directory\\shell\\meatshell"));
    keys.push(String::from_str("Directory\\Background\\shell\\meatshell"));
    keys.push(String::from_str("*\\shell\\meatshell"));
    assert(keys.deep_view() =~= verb_key_paths());
    keys
}

/// The subkey of a verb key that holds the command line.
pub open spec fn command_subkey() -> Seq<char> {
    "command"@
}

/// The menu entry's label, the default value of each verb key.
pub open spec fn verb_label() -> Seq<char> {
    "在此处打开 Meatshell"@
}

/// The menu entry's label.
pub fn verb_name() -> (name: String)
    ensures
        name@ == verb_label(),
{
    String::from_str("在此处打开 Meatshell")
}

/// The program path used when the running executable cannot be found.
pub open spec fn fallback_exe() -> Seq<char> {
    "meatshell.exe"@
}

/// What follows the quoted program path on the verb's command line;
/// Explorer replaces `%V` by the selected item.
pub open spec fn command_tail() -> Seq<char> {
    "\" --new-window --dir \"%V\""@
}

/// The verb's command line `"<exe>" --new-window --dir "%V"`.
pub open spec fn command_line_of(exe: Seq<char>) -> Seq<char> {
    seq!['"'] + exe + command_tail()
}

/// Builds the command line Explorer runs for the verb, from the path of the
/// running executable, or `meatshell.exe` when that path is unknown.
pub fn exe_arg(current_exe: Option<&str>) -> (cmd: String)
    ensures
        cmd@ == command_line_of(
            match current_exe {
                Some(exe) => exe@,
                None => fallback_exe(),
            },
        ),
{
    let mut cmd = String::new();
    cmd.push('"');
    match current_exe {
        Some(exe) => cmd.append(exe),
        None => cmd.append("meatshell.exe"),
    }
    cmd.append("\" --new-window --dir \"%V\"");
    assert(cmd@ =~= command_line_of(
        match current_exe {
            Some(exe) => exe@,
            None => fallback_exe(),
        },
    ));
    cmd
}

// ---------------------------------------------------------------------------
// Key paths

/// Why a registry step failed.
#[derive(Debug, Clone, Copy, PartialEq, Eq, Structural)]
pub enum RegistryError {
    /// A Win32 registry function returned this status.
    Os(u32),
    /// A verb key path had no `\` to split the class key from the rest.
    MalformedKeyPath,
}

/// The part of a verb key path below its class key (`Directory`, `*`), as
/// UTF-16 without a terminator.
#[derive(Debug)]
pub struct KeyParts {
    pub sub: Vec<u16>,
}

/// The part of a key path after its first `\`: the path below the class
/// key, or nothing when there is no `\`.
pub open spec fn subkey_of(path: Seq<char>) -> Option<Seq<char>> {
    match path.index_of_first('\\') {
        Some(k) => Some(path.skip(k + 1)),
        None => None,
    }
}

/// Splits a key path such as `Directory\shell\meatshell` at its first `\`
/// and encodes the rest, `shell\meatshell`, as UTF-16.
pub fn split_key_path(path: &str) -> (parts: Result<KeyParts, RegistryError>)
    ensures
        match subkey_of(path@) {
            Some(sub) => parts matches Ok(p) && p.sub@ == utf16(sub),
            None => parts == Err::<KeyParts, RegistryError>(RegistryError::MalformedKeyPath),
        },
{
    let chars = chars_of(path);
    match find_char(&chars, '\\') {
        None => Err(RegistryError::MalformedKeyPath),
        Some(k) => {
            proof {
                chars@.index_of_first_ensures('\\');
            }
            assert(k < chars.len());
            let mut sub: Vec<u16> = Vec::new();
            push_utf16(&mut sub, &chars, k + 1);
            assert(chars@.subrange(k + 1, chars@.len() as int) =~= path@.skip(k + 1));
            assert(sub@ =~= utf16(path@.skip(k + 1)));
            Ok(KeyParts { sub })
        },
    }
}

/// The size in bytes that `RegSetValueExW` is given for a wide string of
/// `len` units, kept to its low 32 bits.
pub open spec fn wide_byte_len(len: nat) -> u32 {
    ((2 * len) % 0x1_0000_0000) as u32
}

/// The byte size of a wide string of `units.len()` units.
pub fn byte_len_of(units: &Vec<u16>) -> (size: u32)
    ensures
        size == wide_byte_len(units.len() as nat),
{
    let n: u64 = units.len() as u64;
    let half: u64 = if n < 0x8000_0000_0000_0000 {
        n
    } else {
        n - 0x8000_0000_0000_0000
    };
    let size: u32 = ((half * 2) % 0x1_0000_0000) as u32;
    assert((half * 2) % 0x1_0000_0000 == (2 * n) % 0x1_0000_0000);
    size
}

// ---------------------------------------------------------------------------
// Registry calls

/// The key a new key is created under.
#[derive(Debug, Clone, Copy, PartialEq, Eq, Structural)]
pub enum KeyHandle {
    /// `HKEY_CLASSES_ROOT`.
    ClassesRoot,
    /// A key that an earlier `CreateKey` opened.
    Opened(isize),
}

/// One Win32 registry call, with its wide-string arguments NUL-terminated.
#[derive(Debug)]
pub enum RegistryCall {
    /// `RegDeleteTreeW(HKEY_CLASSES_ROOT, sub)`.
    DeleteTree { sub: Vec<u16> },
    /// `RegCreateKeyExW(parent, sub, ...)`, non-volatile, with write access.
    CreateKey { parent: KeyHandle, sub: Vec<u16> },
    /// `RegSetValueExW(key, name, REG_SZ, value, byte_len)`; an empty `name`
    /// stands for the null pointer, the key's default value.
    SetString { key: isize, name: Vec<u16>, value: Vec<u16>, byte_len: u32 },
    /// `CloseHandle(key)`.
    CloseKey { key: isize },
}

/// A registry call as plain values.
pub enum CallView {
    DeleteTree(Seq<u16>),
    CreateKey(KeyHandle, Seq<u16>),
    SetString(isize, Seq<u16>, Seq<u16>, u32),
    CloseKey(isize),
}

impl View for RegistryCall {
    type V = CallView;

    open spec fn view(&self) -> CallView {
        match self {
            RegistryCall::DeleteTree { sub } => CallView::DeleteTree(sub@),
            RegistryCall::CreateKey { parent, sub } => CallView::CreateKey(*parent, sub@),
            RegistryCall::SetString { key, name, value, byte_len } => CallView::SetString(
                *key,
                name@,
                value@,
                *byte_len,
            ),
            RegistryCall::CloseKey { key } => CallView::CloseKey(*key),
        }
    }
}

/// The wide form of `s`: UTF-16 with a terminating NUL.
pub open spec fn wide(s: Seq<char>) -> Seq<u16> {
    utf16(s).push(0)
}

/// Writing the string `value` under `name` (the default value when there
/// is none) of an open key.
pub open spec fn set_string_call(key: isize, name: Option<Seq<char>>, value: Seq<char>) -> CallView {
    CallView::SetString(
        key,
        match name {
            Some(n) => wide(n),
            None => Seq::empty(),
        },
        wide(value),
        wide_byte_len(wide(value).len()),
    )
}

/// The call that stores the `REG_SZ` string `value` under `name` of `key`;
/// what the call then yields is `status_result` of its status.
pub fn set_reg_sz(key: isize, name: Option<&str>, value: &str) -> (call: RegistryCall)
    ensures
        call@ == set_string_call(
            key,
            match name {
                Some(n) => Some(n@),
                None => None,
            },
            value@,
        ),
{
    let value_wide = os_str_to_wide(value);
    let byte_len = byte_len_of(&value_wide);
    let name_wide = match name {
        Some(n) => os_str_to_wide(n),
        None => Vec::new(),
    };
    RegistryCall::SetString { key, name: name_wide, value: value_wide, byte_len }
}

/// The call that removes the verb key at `path` under `HKEY_CLASSES_ROOT`
/// and everything below it, or the error of a path without `\`, which
/// names no key below a class key; what the call then yields is
/// `status_result` of its status.
pub fn unregister_key(path: &str) -> (call: Result<RegistryCall, RegistryError>)
    ensures
        match subkey_of(path@) {
            Some(_) => call matches Ok(c) && c@ == CallView::DeleteTree(wide(path@)),
            None => call == Err::<RegistryCall, RegistryError>(RegistryError::MalformedKeyPath),
        },
{
    match split_key_path(path) {
        Ok(_) => Ok(RegistryCall::DeleteTree { sub: os_str_to_wide(path) }),
        Err(e) => Err(e),
    }
}

/// What a registry call's status means: `0` is success, anything else is
/// that error.
pub open spec fn status_result(status: u32) -> Result<(), RegistryError> {
    if status == 0 {
        Ok(())
    } else {
        Err(RegistryError::Os(status))
    }
}

/// The result of a registry call (a deletion, a creation or a write) that
/// returned `status`: success exactly when the status is `0`, else
/// `Os(status)`.
pub fn check_status(status: u32) -> (result: Result<(), RegistryError>)
    ensures
        result == status_result(status),
        result is Ok <==> status == 0,
{
    if status == 0 {
        Ok(())
    } else {
        Err(RegistryError::Os(status))
    }
}

// ---------------------------------------------------------------------------
// Installing and removing the verb, one call at a time

/// What the procedure asks of the caller next: make a call and report its
/// result, or stop with the procedure's outcome.
#[derive(Debug)]
pub enum RegistryStep {
    Call(RegistryCall),
    Finished(Result<(), RegistryError>),
}

/// A step as plain values.
pub enum StepView {
    Call(CallView),
    Finished(Result<(), RegistryError>),
}

impl View for RegistryStep {
    type V = StepView;

    open spec fn view(&self) -> StepView {
        match self {
            RegistryStep::Call(c) => StepView::Call(c@),
            RegistryStep::Finished(r) => StepView::Finished(*r),
        }
    }
}

/// The result of the last call: its status (`0` is success) and, for a
/// created key, the key's handle.
#[derive(Debug, Clone, Copy)]
pub struct RegistryReply {
    pub status: u32,
    pub key: isize,
}

/// Where the procedure stands: which call's reply it waits for.
#[derive(Debug, Clone, Copy, PartialEq, Eq, Structural)]
pub enum Phase {
    /// Removing stale verb keys.
    Clearing,
    /// Creating the verb key.
    CreatingVerb,
    /// Writing the label into the verb key.
    NamingVerb,
    /// Creating the `command` subkey.
    CreatingCommand,
    /// Writing the command line into the `command` subkey.
    SettingCommand,
    /// Closing the verb key.
    ClosingVerb,
    /// Closing the `command` subkey.
    ClosingCommand,
    /// Finished.
    Done,
}

/// What a procedure was started with: the verb key paths, the label, the
/// command line, and whether it installs (or only removes) the verb.
pub struct Plan {
    pub keys: Seq<Seq<char>>,
    pub label: Seq<char>,
    pub command: Seq<char>,
    pub install: bool,
}

/// A procedure's progress: its phase, the key it works on (while
/// clearing, the next key to look at), the open verb and `command` keys,
/// and, once done, its outcome.
pub struct Progress {
    pub phase: Phase,
    pub index: int,
    pub verb: isize,
    pub cmd: isize,
    pub outcome: Result<(), RegistryError>,
}

/// The first position at or after `i` whose key path can be split, or the
/// number of keys when there is none.
pub open spec fn next_clear(keys: Seq<Seq<char>>, i: int) -> int
    decreases keys.len() - i,
{
    if i < 0 || i >= keys.len() {
        keys.len() as int
    } else if subkey_of(keys[i]) is Some {
        i
    } else {
        next_clear(keys, i + 1)
    }
}

/// Stopping with outcome `r`.
pub open spec fn finish(p: Progress, r: Result<(), RegistryError>) -> (Progress, StepView) {
    (
        Progress { phase: Phase::Done, index: p.index, verb: p.verb, cmd: p.cmd, outcome: r },
        StepView::Finished(r),
    )
}

/// Starting on key `i`: create its verb key under `HKEY_CLASSES_ROOT`;
/// past the last key the installation has succeeded.
pub open spec fn begin_key(plan: Plan, p: Progress, i: int) -> (Progress, StepView) {
    if i < 0 || i >= plan.keys.len() {
        finish(p, Ok(()))
    } else {
        match subkey_of(plan.keys[i]) {
            None => finish(p, Err(RegistryError::MalformedKeyPath)),
            Some(_) => (
                Progress {
                    phase: Phase::CreatingVerb,
                    index: i,
                    verb: p.verb,
                    cmd: p.cmd,
                    outcome: p.outcome,
                },
                StepView::Call(CallView::CreateKey(KeyHandle::ClassesRoot, wide(plan.keys[i]))),
            ),
        }
    }
}

/// Removing stale keys from position `i` on: delete the next key whose
/// path can be split (one that cannot is passed over); after the last,
/// start installing, or, when only removing, stop with success.
pub open spec fn clear_from(plan: Plan, p: Progress, i: int) -> (Progress, StepView) {
    let j = next_clear(plan.keys, i);
    if j < plan.keys.len() {
        (
            Progress { phase: Phase::Clearing, index: j + 1, verb: p.verb, cmd: p.cmd, outcome: p.outcome },
            StepView::Call(CallView::DeleteTree(wide(plan.keys[j]))),
        )
    } else if plan.install {
        begin_key(plan, p, 0)
    } else {
        finish(p, Ok(()))
    }
}

/// The progress before any call.
pub open spec fn initial_progress() -> Progress {
    Progress { phase: Phase::Clearing, index: 0, verb: 0, cmd: 0, outcome: Ok(()) }
}

/// The first step of a procedure.
pub open spec fn first_step(plan: Plan) -> (Progress, StepView) {
    clear_from(plan, initial_progress(), 0)
}

/// The next step, given the reply to the last call. The result of a
/// deletion (`status_result` of its status) or of a close is passed over,
/// as stale keys may well be absent; a failed creation or write stops the
/// procedure with its result.
pub open spec fn next_step(plan: Plan, p: Progress, reply: RegistryReply) -> (Progress, StepView) {
    let result = status_result(reply.status);
    let failed = result is Err;
    match p.phase {
        Phase::Clearing => clear_from(plan, p, p.index),
        Phase::CreatingVerb => if failed {
            finish(p, result)
        } else {
            (
                Progress { phase: Phase::NamingVerb, index: p.index, verb: reply.key, cmd: p.cmd, outcome: p.outcome },
                StepView::Call(set_string_call(reply.key, None, plan.label)),
            )
        },
        Phase::NamingVerb => if failed {
            finish(p, result)
        } else {
            (
                Progress { phase: Phase::CreatingCommand, index: p.index, verb: p.verb, cmd: p.cmd, outcome: p.outcome },
                StepView::Call(CallView::CreateKey(KeyHandle::Opened(p.verb), wide(command_subkey()))),
            )
        },
        Phase::CreatingCommand => if failed {
            finish(p, result)
        } else {
            (
                Progress { phase: Phase::SettingCommand, index: p.index, verb: p.verb, cmd: reply.key, outcome: p.outcome },
                StepView::Call(set_string_call(reply.key, None, plan.command)),
            )
        },
        Phase::SettingCommand => if failed {
            finish(p, result)
        } else {
            (
                Progress { phase: Phase::ClosingVerb, index: p.index, verb: p.verb, cmd: p.cmd, outcome: p.outcome },
                StepView::Call(CallView::CloseKey(p.verb)),
            )
        },
        Phase::ClosingVerb => (
            Progress { phase: Phase::ClosingCommand, index: p.index, verb: p.verb, cmd: p.cmd, outcome: p.outcome },
            StepView::Call(CallView::CloseKey(p.cmd)),
        ),
        Phase::ClosingCommand => begin_key(plan, p, p.index + 1),
        Phase::Done => (p, StepView::Finished(p.outcome)),
    }
}

/// Installs or removes the Explorer context-menu verb, one registry call
/// at a time: the caller makes each call it is given and hands back the
/// result, until the procedure finishes.
///
/// Every verb key is addressed by its full path under `HKEY_CLASSES_ROOT`,
/// such as `Directory\shell\meatshell`; a path without `\` names no key
/// below a class key and is refused. Installing first removes every verb
/// key that is there (a stale command line from an earlier install path is
/// never left behind), then, for each key, creates it, writes the label,
/// creates its `command` subkey, writes the command line and closes both
/// keys. Removing only deletes the keys.
pub struct MenuRegistration {
    keys: Vec<String>,
    label: String,
    command: String,
    install: bool,
    phase: Phase,
    index: usize,
    verb: isize,
    cmd: isize,
    outcome: Result<(), RegistryError>,
}

impl MenuRegistration {
    /// What this procedure was started with.
    pub closed spec fn plan(&self) -> Plan {
        Plan {
            keys: self.keys.deep_view(),
            label: self.label@,
            command: self.command@,
            install: self.install,
        }
    }

    /// How far this procedure has come.
    pub closed spec fn progress(&self) -> Progress {
        Progress {
            phase: self.phase,
            index: self.index as int,
            verb: self.verb,
            cmd: self.cmd,
            outcome: self.outcome,
        }
    }

    fn finish(&mut self, r: Result<(), RegistryError>) -> (step: RegistryStep)
        ensures
            final(self).plan() == old(self).plan(),
            (final(self).progress(), step@) == finish(old(self).progress(), r),
    {
        self.phase = Phase::Done;
        self.outcome = r;
        RegistryStep::Finished(r)
    }

    fn begin_key(&mut self, i: usize) -> (step: RegistryStep)
        ensures
            final(self).plan() == old(self).plan(),
            (final(self).progress(), step@) == begin_key(old(self).plan(), old(self).progress(), i as int),
    {
        if i >= self.keys.len() {
            return self.finish(Ok(()));
        }
        assert(self.keys.deep_view()[i as int] == self.keys[i as int]@);
        match split_key_path(self.keys[i].as_str()) {
            Err(_) => self.finish(Err(RegistryError::MalformedKeyPath)),
            Ok(_) => {
                let sub = os_str_to_wide(self.keys[i].as_str());
                self.phase = Phase::CreatingVerb;
                self.index = i;
                RegistryStep::Call(RegistryCall::CreateKey { parent: KeyHandle::ClassesRoot, sub })
            },
        }
    }

    fn clear_from(&mut self, i: usize) -> (step: RegistryStep)
        ensures
            final(self).plan() == old(self).plan(),
            (final(self).progress(), step@) == clear_from(old(self).plan(), old(self).progress(), i as int),
    {
        let ghost keys = self.keys.deep_view();
        let mut j: usize = i;
        while j < self.keys.len()
            invariant
                i <= j,
                keys == self.keys.deep_view(),
                keys.len() == self.keys.len(),
                self.plan() == old(self).plan(),
                self.progress() == old(self).progress(),
                next_clear(keys, i as int) == next_clear(keys, j as int),
            decreases self.keys.len() - j,
        {
            assert(keys[j as int] == self.keys[j as int]@);
            match unregister_key(self.keys[j].as_str()) {
                Ok(call) => {
                    self.phase = Phase::Clearing;
                    self.index = j + 1;
                    return RegistryStep::Call(call);
                },
                Err(_) => {
                    j = j + 1;
                },
            }
        }
        if self.install {
            self.begin_key(0)
        } else {
            self.finish(Ok(()))
        }
    }

    /// Starts a procedure over the verb keys `keys`: installing, with the
    /// menu label `label` and the command line `command`, or removing.
    /// Returns the procedure and its first step.
    pub fn start(keys: Vec<String>, label: String, command: String, install: bool) -> (started: (
        Self,
        RegistryStep,
    ))
        ensures
            started.0.plan() == (Plan { keys: keys.deep_view(), label: label@, command: command@, install }),
            (started.0.progress(), started.1@) == first_step(started.0.plan()),
    {
        let mut m = MenuRegistration {
            keys,
            label,
            command,
            install,
            phase: Phase::Clearing,
            index: 0,
            verb: 0,
            cmd: 0,
            outcome: Ok(()),
        };
        let step = m.clear_from(0);
        (m, step)
    }

    /// Starts installing the verb on the three verb keys, with the menu
    /// label and the command line `command`.
    pub fn register(command: &str) -> (started: (Self, RegistryStep))
        ensures
            started.0.plan() == (Plan {
                keys: verb_key_paths(),
                label: verb_label(),
                command: command@,
                install: true,
            }),
            (started.0.progress(), started.1@) == first_step(started.0.plan()),
    {
        Self::start(verb_keys(), verb_name(), String::from_str(command), true)
    }

    /// Starts removing the verb from the three verb keys.
    pub fn unregister() -> (started: (Self, RegistryStep))
        ensures
            started.0.plan() == (Plan {
                keys: verb_key_paths(),
                label: Seq::empty(),
                command: Seq::empty(),
                install: false,
            }),
            (started.0.progress(), started.1@) == first_step(started.0.plan()),
    {
        Self::start(verb_keys(), String::new(), String::new(), false)
    }

    /// Takes the reply to the last call and gives the next step.
    pub fn resume(&mut self, reply: RegistryReply) -> (step: RegistryStep)
        ensures
            final(self).plan() == old(self).plan(),
            (final(self).progress(), step@) == next_step(old(self).plan(), old(self).progress(), reply),
    {
        let result = check_status(reply.status);
        let failed = result.is_err();
        match self.phase {
            Phase::Clearing => {
                let i = self.index;
                self.clear_from(i)
            },
            Phase::CreatingVerb => {
                if failed {
                    return self.finish(result);
                }
                self.phase = Phase::NamingVerb;
                self.verb = reply.key;
                RegistryStep::Call(set_reg_sz(reply.key, None, self.label.as_str()))
            },
            Phase::NamingVerb => {
                if failed {
                    return self.finish(result);
                }
                self.phase = Phase::CreatingCommand;
                let sub = os_str_to_wide("command");
                RegistryStep::Call(RegistryCall::CreateKey { parent: KeyHandle::Opened(self.verb), sub })
            },
            Phase::CreatingCommand => {
                if failed {
                    return self.finish(result);
                }
                self.phase = Phase::SettingCommand;
                self.cmd = reply.key;
                RegistryStep::Call(set_reg_sz(reply.key, None, self.command.as_str()))
            },
            Phase::SettingCommand => {
                if failed {
                    return self.finish(result);
                }
                self.phase = Phase::ClosingVerb;
                RegistryStep::Call(RegistryCall::CloseKey { key: self.verb })
            },
            Phase::ClosingVerb => {
                self.phase = Phase::ClosingCommand;
                RegistryStep::Call(RegistryCall::CloseKey { key: self.cmd })
            },
            Phase::ClosingCommand => {
                if self.index < self.keys.len() {
                    let i = self.index + 1;
                    self.begin_key(i)
                } else {
                    let ghost before = self.progress();
                    let step = self.finish(Ok(()));
                    assert(begin_key(self.plan(), before, before.index + 1) == finish(before, Ok(())));
                    step
                }
            },
            Phase::Done => RegistryStep::Finished(self.outcome),
        }
    }
}

// ---------------------------------------------------------------------------
// Laws

/// The steps a procedure gives, from progress `p`, when its calls get the
/// replies `replies` in order.
pub open spec fn steps_after(plan: Plan, p: Progress, replies: Seq<RegistryReply>) -> Seq<StepView>
    decreases replies.len(),
{
    if replies.len() == 0 {
        Seq::empty()
    } else {
        let (q, step) = next_step(plan, p, replies[0]);
        seq![step] + steps_after(plan, q, replies.drop_first())
    }
}

/// The progress after the replies `replies`, from progress `p`.
pub open spec fn progress_after(plan: Plan, p: Progress, replies: Seq<RegistryReply>) -> Progress
    decreases replies.len(),
{
    if replies.len() == 0 {
        p
    } else {
        progress_after(plan, next_step(plan, p, replies[0]).0, replies.drop_first())
    }
}

/// Every step of a procedure started with `plan`: the first step, then one
/// step per reply.
pub open spec fn trace(plan: Plan, replies: Seq<RegistryReply>) -> Seq<StepView> {
    seq![first_step(plan).1] + steps_after(plan, first_step(plan).0, replies)
}

/// Whether every verb key path can be split into root and subkey.
pub open spec fn all_keys_split(keys: Seq<Seq<char>>) -> bool {
    forall|i: int| 0 <= i < keys.len() ==> (#[trigger] subkey_of(keys[i])) is Some
}

/// Whether `p` is a progress that a procedure over `plan` can reach.
pub open spec fn reachable(plan: Plan, p: Progress) -> bool {
    match p.phase {
        Phase::Clearing => 0 <= p.index <= plan.keys.len(),
        Phase::Done => true,
        _ => plan.install && 0 <= p.index < plan.keys.len(),
    }
}

/// How many more replies a procedure may take before it finishes.
pub open spec fn replies_left(plan: Plan, p: Progress) -> int {
    let n = plan.keys.len() as int;
    match p.phase {
        Phase::Clearing => (n - p.index) + 1 + 6 * n,
        Phase::CreatingVerb => 6 * (n - p.index),
        Phase::NamingVerb => 6 * (n - p.index) - 1,
        Phase::CreatingCommand => 6 * (n - p.index) - 2,
        Phase::SettingCommand => 6 * (n - p.index) - 3,
        Phase::ClosingVerb => 6 * (n - p.index) - 4,
        Phase::ClosingCommand => 6 * (n - p.index) - 5,
        Phase::Done => 0,
    }
}

proof fn lemma_next_clear_bounds(keys: Seq<Seq<char>>, i: int)
    requires
        0 <= i <= keys.len(),
    ensures
        i <= next_clear(keys, i) <= keys.len(),
    decreases keys.len() - i,
{
    if i < keys.len() {
        lemma_next_clear_bounds(keys, i + 1);
    }
}

/// One step keeps the progress reachable, and, unless the procedure is
/// done, leaves fewer replies to take; a step into `Done` is `Finished`.
proof fn lemma_step_progress(plan: Plan, p: Progress, reply: RegistryReply)
    requires
        reachable(plan, p),
    ensures
        reachable(plan, next_step(plan, p, reply).0),
        p.phase != Phase::Done ==> replies_left(plan, next_step(plan, p, reply).0) < replies_left(
            plan,
            p,
        ),
        next_step(plan, p, reply).0.phase == Phase::Done ==> next_step(plan, p, reply).1 is Finished,
        replies_left(plan, next_step(plan, p, reply).0) >= 0,
{
    if p.phase == Phase::Clearing {
        lemma_next_clear_bounds(plan.keys, p.index);
    }
}

/// From a reachable progress, after `replies_left` replies the procedure
/// is done and its last step is `Finished`.
proof fn lemma_finishes(plan: Plan, p: Progress, replies: Seq<RegistryReply>)
    requires
        reachable(plan, p),
        replies.len() >= replies_left(plan, p),
        replies.len() > 0 || p.phase == Phase::Done,
    ensures
        progress_after(plan, p, replies).phase == Phase::Done,
        replies.len() > 0 ==> steps_after(plan, p, replies).last() is Finished,
        steps_after(plan, p, replies).len() == replies.len(),
    decreases replies.len(),
{
    if replies.len() > 0 {
        let (q, step) = next_step(plan, p, replies[0]);
        lemma_step_progress(plan, p, replies[0]);
        let rest = replies.drop_first();
        if rest.len() > 0 {
            if q.phase != Phase::Done {
                lemma_finishes(plan, q, rest);
            } else {
                lemma_done_stays(plan, q, rest);
            }
        } else {
            lemma_finishes(plan, q, rest);
        }
        assert(steps_after(plan, p, replies) == seq![step] + steps_after(plan, q, rest));
    }
}

/// A finished procedure stays finished and repeats its outcome.
proof fn lemma_done_stays(plan: Plan, p: Progress, replies: Seq<RegistryReply>)
    requires
        p.phase == Phase::Done,
    ensures
        progress_after(plan, p, replies) == p,
        steps_after(plan, p, replies) == Seq::new(replies.len(), |k: int| StepView::Finished(p.outcome)),
    decreases replies.len(),
{
    if replies.len() > 0 {
        lemma_done_stays(plan, p, replies.drop_first());
        assert(steps_after(plan, p, replies) =~= Seq::new(
            replies.len(),
            |k: int| StepView::Finished(p.outcome),
        ));
    }
}

/// The procedure never blocks its caller: whatever the registry answers,
/// after `7 n` replies (for `n` verb keys) its last step is `Finished`.
pub proof fn lemma_registration_finishes(plan: Plan, replies: Seq<RegistryReply>)
    requires
        replies.len() >= 7 * plan.keys.len(),
    ensures
        trace(plan, replies).len() == replies.len() + 1,
        trace(plan, replies).last() is Finished,
{
    let (p, step) = first_step(plan);
    lemma_next_clear_bounds(plan.keys, 0);
    assert(reachable(plan, initial_progress()));
    lemma_step_progress(plan, initial_progress(), RegistryReply { status: 0, key: 0 });
    assert(clear_from(plan, initial_progress(), 0) == next_step(
        plan,
        initial_progress(),
        RegistryReply { status: 0, key: 0 },
    ));
    if p.phase == Phase::Done {
        lemma_done_stays(plan, p, replies);
        if replies.len() == 0 {
            assert(trace(plan, replies) =~= seq![step]);
        }
    } else {
        lemma_finishes(plan, p, replies);
    }
    let t = trace(plan, replies);
    if replies.len() > 0 {
        assert(t.last() == steps_after(plan, p, replies).last());
    }
}

/// Removing the verb only ever deletes keys and always ends in success,
/// whatever the registry answers.
pub proof fn lemma_removal_only_deletes(plan: Plan, replies: Seq<RegistryReply>)
    requires
        !plan.install,
    ensures
        forall|k: int|
            0 <= k < trace(plan, replies).len() ==> {
                let s = #[trigger] trace(plan, replies)[k];
                s is Finished ==> s == StepView::Finished(Ok(()))
            },
        forall|k: int|
            0 <= k < trace(plan, replies).len() ==> {
                let s = #[trigger] trace(plan, replies)[k];
                s is Call ==> s->Call_0 is DeleteTree
            },
{
    let (p, step) = first_step(plan);
    lemma_removal_steps(plan, p, replies);
    lemma_next_clear_bounds(plan.keys, 0);
}

/// While only removing, the progress is clearing or done with success.
pub open spec fn removal_progress(p: Progress) -> bool {
    p.phase == Phase::Clearing || (p.phase == Phase::Done && p.outcome == Ok::<(), RegistryError>(()))
}

proof fn lemma_removal_steps(plan: Plan, p: Progress, replies: Seq<RegistryReply>)
    requires
        !plan.install,
        removal_progress(p),
    ensures
        forall|k: int|
            0 <= k < steps_after(plan, p, replies).len() ==> {
                let s = #[trigger] steps_after(plan, p, replies)[k];
                &&& s is Finished ==> s == StepView::Finished(Ok(()))
                &&& s is Call ==> s->Call_0 is DeleteTree
            },
    decreases replies.len(),
{
    if replies.len() > 0 {
        let (q, step) = next_step(plan, p, replies[0]);
        lemma_removal_steps(plan, q, replies.drop_first());
        let all = steps_after(plan, p, replies);
        assert forall|k: int| 0 <= k < all.len() implies {
            let s = #[trigger] all[k];
            &&& s is Finished ==> s == StepView::Finished(Ok(()))
            &&& s is Call ==> s->Call_0 is DeleteTree
        } by {
            if k > 0 {
                assert(all[k] == steps_after(plan, q, replies.drop_first())[k - 1]);
            }
        }
    }
}

/// The steps and progress after two runs of replies are those of the
/// first run followed by those of the second.
proof fn lemma_steps_append(plan: Plan, p: Progress, r1: Seq<RegistryReply>, r2: Seq<RegistryReply>)
    ensures
        steps_after(plan, p, r1 + r2) == steps_after(plan, p, r1) + steps_after(
            plan,
            progress_after(plan, p, r1),
            r2,
        ),
        progress_after(plan, p, r1 + r2) == progress_after(plan, progress_after(plan, p, r1), r2),
        steps_after(plan, p, r1).len() == r1.len(),
    decreases r1.len(),
{
    if r1.len() > 0 {
        let q = next_step(plan, p, r1[0]).0;
        assert((r1 + r2).drop_first() =~= r1.drop_first() + r2);
        lemma_steps_append(plan, q, r1.drop_first(), r2);
        assert(steps_after(plan, p, r1 + r2) =~= steps_after(plan, p, r1) + steps_after(
            plan,
            progress_after(plan, p, r1),
            r2,
        ));
    } else {
        assert(r1 + r2 =~= r2);
        assert(steps_after(plan, p, r1) + steps_after(plan, p, r2) =~= steps_after(plan, p, r2));
    }
}

proof fn lemma_steps_len(plan: Plan, p: Progress, r: Seq<RegistryReply>)
    ensures
        steps_after(plan, p, r).len() == r.len(),
    decreases r.len(),
{
    if r.len() > 0 {
        lemma_steps_len(plan, next_step(plan, p, r[0]).0, r.drop_first());
    }
}

/// The step that starts work on verb key `i` of a plan whose keys all split.
pub open spec fn key_start_step(plan: Plan, i: int) -> StepView {
    if i < plan.keys.len() {
        StepView::Call(CallView::CreateKey(KeyHandle::ClassesRoot, wide(plan.keys[i])))
    } else {
        StepView::Finished(Ok(()))
    }
}

/// Whether each reply reports success.
pub open spec fn all_succeed(replies: Seq<RegistryReply>) -> bool {
    forall|k: int| 0 <= k < replies.len() ==> (#[trigger] replies[k]).status == 0
}

/// Whether, in replies that come six per verb key, each reply to a creation
/// or a write (the first four of each six) reports success; the replies to
/// the two closes may say anything.
pub open spec fn writes_succeed(replies: Seq<RegistryReply>) -> bool {
    forall|k: int| 0 <= k < replies.len() && k % 6 < 4 ==> (#[trigger] replies[k]).status == 0
}

/// Whether, in the replies of an installation over `n` verb keys, every
/// creation and write is accepted: the first `n` replies (to deletions) and
/// the replies to closes may say anything.
pub open spec fn install_writes_succeed(n: int, replies: Seq<RegistryReply>) -> bool {
    forall|k: int| n <= k < replies.len() && (k - n) % 6 < 4 ==> (#[trigger] replies[k]).status == 0
}

/// Whether `steps[6 j .. 6 j + 6]` are the calls that follow the creation
/// of verb key `i + j` when the registry accepts them: write the label into
/// the key's handle, create `command` under it, write the command line into
/// that subkey's handle, close both, and start the next key.
pub open spec fn key_block(
    plan: Plan,
    i: int,
    replies: Seq<RegistryReply>,
    steps: Seq<StepView>,
    j: int,
) -> bool {
    let verb = replies[6 * j].key;
    let cmd = replies[6 * j + 2].key;
    &&& steps[6 * j] == StepView::Call(set_string_call(verb, None, plan.label))
    &&& steps[6 * j + 1] == StepView::Call(
        CallView::CreateKey(KeyHandle::Opened(verb), wide(command_subkey())),
    )
    &&& steps[6 * j + 2] == StepView::Call(set_string_call(cmd, None, plan.command))
    &&& steps[6 * j + 3] == StepView::Call(CallView::CloseKey(verb))
    &&& steps[6 * j + 4] == StepView::Call(CallView::CloseKey(cmd))
    &&& steps[6 * j + 5] == key_start_step(plan, i + j + 1)
}

/// The steps after the creation of verb key `i`, one block per key.
pub open spec fn key_steps_match(
    plan: Plan,
    i: int,
    replies: Seq<RegistryReply>,
    steps: Seq<StepView>,
) -> bool {
    forall|j: int|
        0 <= j && i + j < plan.keys.len() && 6 * j + 5 < steps.len() ==> #[trigger] key_block(
            plan,
            i,
            replies,
            steps,
            j,
        )
}

/// With every call accepted, the six replies for one verb key give its
/// five remaining calls and then the start of the next key.
proof fn lemma_one_key(plan: Plan, p: Progress, replies: Seq<RegistryReply>)
    requires
        all_keys_split(plan.keys),
        p.phase == Phase::CreatingVerb,
        0 <= p.index < plan.keys.len(),
        replies.len() == 6,
        writes_succeed(replies),
    ensures
        ({
            let verb = replies[0].key;
            let cmd = replies[2].key;
            let steps = steps_after(plan, p, replies);
            &&& steps.len() == 6
            &&& steps[0] == StepView::Call(set_string_call(verb, None, plan.label))
            &&& steps[1] == StepView::Call(
                CallView::CreateKey(KeyHandle::Opened(verb), wide(command_subkey())),
            )
            &&& steps[2] == StepView::Call(set_string_call(cmd, None, plan.command))
            &&& steps[3] == StepView::Call(CallView::CloseKey(verb))
            &&& steps[4] == StepView::Call(CallView::CloseKey(cmd))
            &&& steps[5] == key_start_step(plan, p.index + 1)
            &&& progress_after(plan, p, replies).phase == (if p.index + 1 < plan.keys.len() {
                Phase::CreatingVerb
            } else {
                Phase::Done
            })
            &&& progress_after(plan, p, replies).index == (if p.index + 1 < plan.keys.len() {
                p.index + 1
            } else {
                p.index
            })
            &&& p.index + 1 >= plan.keys.len() ==> progress_after(plan, p, replies).outcome == Ok::<
                (),
                RegistryError,
            >(())
        }),
{
    let r = replies;
    assert(r[0].status == 0 && r[1].status == 0 && r[2].status == 0 && r[3].status == 0);
    let (p1, s0) = next_step(plan, p, r[0]);
    let r1 = r.drop_first();
    let (p2, s1) = next_step(plan, p1, r1[0]);
    let r2 = r1.drop_first();
    let (p3, s2) = next_step(plan, p2, r2[0]);
    let r3 = r2.drop_first();
    let (p4, s3) = next_step(plan, p3, r3[0]);
    let r4 = r3.drop_first();
    let (p5, s4) = next_step(plan, p4, r4[0]);
    let r5 = r4.drop_first();
    let (p6, s5) = next_step(plan, p5, r5[0]);
    let r6 = r5.drop_first();
    assert(r6.len() == 0);
    if p.index + 1 < plan.keys.len() {
        assert(subkey_of(plan.keys[p.index + 1]) is Some);
    }
    assert(steps_after(plan, p6, r6) =~= Seq::<StepView>::empty());
    assert(progress_after(plan, p6, r6) == p6);
    assert(progress_after(plan, p5, r5) == p6);
    assert(progress_after(plan, p4, r4) == p6);
    assert(progress_after(plan, p3, r3) == p6);
    assert(progress_after(plan, p2, r2) == p6);
    assert(progress_after(plan, p1, r1) == p6);
    assert(steps_after(plan, p5, r5) =~= seq![s5]);
    assert(steps_after(plan, p4, r4) =~= seq![s4, s5]);
    assert(steps_after(plan, p3, r3) =~= seq![s3, s4, s5]);
    assert(steps_after(plan, p2, r2) =~= seq![s2, s3, s4, s5]);
    assert(steps_after(plan, p1, r1) =~= seq![s1, s2, s3, s4, s5]);
    assert(steps_after(plan, p, r) =~= seq![s0, s1, s2, s3, s4, s5]);
    assert(progress_after(plan, p, r) == p6);
}

/// With every call accepted, `6 j` replies from the creation of verb key
/// `p.index` give the remaining calls of `j` keys, and leave the procedure
/// creating the next key, or done with success after the last.
proof fn lemma_keys_prefix(plan: Plan, p: Progress, replies: Seq<RegistryReply>)
    requires
        all_keys_split(plan.keys),
        p.phase == Phase::CreatingVerb,
        0 <= p.index < plan.keys.len(),
        replies.len() % 6 == 0,
        p.index + replies.len() / 6 <= plan.keys.len(),
        writes_succeed(replies),
    ensures
        steps_after(plan, p, replies).len() == replies.len(),
        key_steps_match(plan, p.index, replies, steps_after(plan, p, replies)),
        p.index + replies.len() / 6 < plan.keys.len() ==> progress_after(plan, p, replies).phase
            == Phase::CreatingVerb && progress_after(plan, p, replies).index == p.index
            + replies.len() / 6,
        p.index + replies.len() / 6 == plan.keys.len() ==> progress_after(plan, p, replies).phase
            == Phase::Done && progress_after(plan, p, replies).outcome == Ok::<(), RegistryError>(()),
    decreases replies.len(),
{
    lemma_steps_len(plan, p, replies);
    if replies.len() == 0 {
        return;
    }
    let head = replies.take(6);
    let tail = replies.skip(6);
    assert(replies =~= head + tail);
    lemma_steps_append(plan, p, head, tail);
    assert(writes_succeed(head)) by {
        assert forall|k: int| 0 <= k < head.len() && k % 6 < 4 implies (#[trigger] head[k]).status
            == 0 by {
            assert(head[k] == replies[k]);
        }
    }
    lemma_one_key(plan, p, head);
    let q = progress_after(plan, p, head);
    let steps = steps_after(plan, p, replies);
    let first = steps_after(plan, p, head);
    let rest = steps_after(plan, q, tail);
    lemma_steps_len(plan, q, tail);
    assert(tail.len() / 6 == replies.len() / 6 - 1);
    if p.index + 1 < plan.keys.len() {
        assert(writes_succeed(tail)) by {
            assert forall|k: int| 0 <= k < tail.len() && k % 6 < 4 implies (#[trigger] tail[k]).status
                == 0 by {
                assert(tail[k] == replies[k + 6]);
                assert((k + 6) % 6 == k % 6);
            }
        }
        lemma_keys_prefix(plan, q, tail);
    } else {
        assert(tail.len() == 0);
        assert(progress_after(plan, q, tail) == q);
    }
    assert forall|j: int|
        0 <= j && p.index + j < plan.keys.len() && 6 * j + 5 < steps.len() implies #[trigger] key_block(
        plan,
        p.index,
        replies,
        steps,
        j,
    ) by {
        if j > 0 {
            let jj = j - 1;
            assert(key_block(plan, q.index, tail, rest, jj));
            assert(6 * j == 6 * jj + 6);
            assert(steps[6 * j] == rest[6 * jj]);
            assert(steps[6 * j + 1] == rest[6 * jj + 1]);
            assert(steps[6 * j + 2] == rest[6 * jj + 2]);
            assert(steps[6 * j + 3] == rest[6 * jj + 3]);
            assert(steps[6 * j + 4] == rest[6 * jj + 4]);
            assert(steps[6 * j + 5] == rest[6 * jj + 5]);
            assert(tail[6 * jj] == replies[6 * j]);
            assert(tail[6 * jj + 2] == replies[6 * j + 2]);
            assert(q.index + jj == p.index + j);
        } else {
            assert(head[0] == replies[0]);
            assert(head[2] == replies[2]);
            assert(steps[0] == first[0]);
            assert(steps[1] == first[1]);
            assert(steps[2] == first[2]);
            assert(steps[3] == first[3]);
            assert(steps[4] == first[4]);
            assert(steps[5] == first[5]);
        }
    }
}

/// With every call accepted, the replies from the creation of verb key
/// `p.index` to the end give the remaining calls of every key and then
/// success.
proof fn lemma_keys_from(plan: Plan, p: Progress, replies: Seq<RegistryReply>)
    requires
        all_keys_split(plan.keys),
        p.phase == Phase::CreatingVerb,
        0 <= p.index < plan.keys.len(),
        replies.len() == 6 * (plan.keys.len() - p.index),
        writes_succeed(replies),
    ensures
        steps_after(plan, p, replies).len() == replies.len(),
        key_steps_match(plan, p.index, replies, steps_after(plan, p, replies)),
        progress_after(plan, p, replies).phase == Phase::Done,
        progress_after(plan, p, replies).outcome == Ok::<(), RegistryError>(()),
{
    assert(replies.len() / 6 == plan.keys.len() - p.index);
    lemma_keys_prefix(plan, p, replies);
}

/// While installing with every key path splittable, the replies to the
/// deletions from key `p.index` on give the remaining deletions in order
/// and then the creation of the first verb key.
proof fn lemma_clearing(plan: Plan, p: Progress, replies: Seq<RegistryReply>)
    requires
        plan.install,
        all_keys_split(plan.keys),
        p.phase == Phase::Clearing,
        1 <= p.index <= plan.keys.len(),
        replies.len() == plan.keys.len() - p.index + 1,
    ensures
        steps_after(plan, p, replies).len() == replies.len(),
        forall|k: int|
            0 <= k < plan.keys.len() - p.index ==> #[trigger] steps_after(plan, p, replies)[k]
                == StepView::Call(CallView::DeleteTree(wide(plan.keys[p.index + k]))),
        steps_after(plan, p, replies)[plan.keys.len() - p.index] == key_start_step(plan, 0),
        progress_after(plan, p, replies).phase == Phase::CreatingVerb,
        progress_after(plan, p, replies).index == 0,
    decreases plan.keys.len() - p.index,
{
    let n = plan.keys.len() as int;
    let (q, step) = next_step(plan, p, replies[0]);
    let rest = replies.drop_first();
    lemma_steps_len(plan, q, rest);
    assert(subkey_of(plan.keys[0]) is Some);
    if p.index < n {
        assert(subkey_of(plan.keys[p.index]) is Some);
        assert(next_clear(plan.keys, p.index) == p.index);
        lemma_clearing(plan, q, rest);
        let steps = steps_after(plan, p, replies);
        assert forall|k: int| 0 <= k < n - p.index implies #[trigger] steps[k] == StepView::Call(
            CallView::DeleteTree(wide(plan.keys[p.index + k])),
        ) by {
            if k > 0 {
                assert(steps[k] == steps_after(plan, q, rest)[k - 1]);
                assert(q.index + (k - 1) == p.index + k);
            }
        }
        assert(steps[n - p.index] == steps_after(plan, q, rest)[n - p.index - 1]);
    } else {
        assert(next_clear(plan.keys, p.index) == n);
        assert(rest.len() == 0);
        assert(progress_after(plan, q, rest) == q);
    }
}

/// Whether `t[n + 6 j .. n + 6 j + 6]`, for `n` verb keys, are the calls
/// made for verb key `j` when the registry accepts them: create the key at
/// its full path `keys[j]` under `HKEY_CLASSES_ROOT`, write the label into the handle that creation
/// returned, create its `command` subkey under that handle, write the
/// command line into the subkey's handle, and close both handles.
pub open spec fn install_block(plan: Plan, replies: Seq<RegistryReply>, t: Seq<StepView>, j: int) -> bool {
    let base = plan.keys.len() + 6 * j;
    let verb = replies[base].key;
    let cmd = replies[base + 2].key;
    &&& t[base] == StepView::Call(
        CallView::CreateKey(KeyHandle::ClassesRoot, wide(plan.keys[j])),
    )
    &&& t[base + 1] == StepView::Call(set_string_call(verb, None, plan.label))
    &&& t[base + 2] == StepView::Call(
        CallView::CreateKey(KeyHandle::Opened(verb), wide(command_subkey())),
    )
    &&& t[base + 3] == StepView::Call(set_string_call(cmd, None, plan.command))
    &&& t[base + 4] == StepView::Call(CallView::CloseKey(verb))
    &&& t[base + 5] == StepView::Call(CallView::CloseKey(cmd))
}

/// Whether `t` is the full trace of an installation that every call
/// succeeded in, given the replies: the verb keys, at their full paths under
/// `HKEY_CLASSES_ROOT`, are all deleted first, in order; then, for each key
/// in turn, the key is created at that path, its label is written into the handle that creation
/// returned, its `command` subkey is created under that handle, the
/// command line is written into the subkey's handle, and both handles are
/// closed; last comes success.
pub open spec fn install_trace(plan: Plan, replies: Seq<RegistryReply>, t: Seq<StepView>) -> bool {
    let n = plan.keys.len() as int;
    &&& t.len() == 7 * n + 1
    &&& forall|k: int|
        0 <= k < n ==> #[trigger] t[k] == StepView::Call(
            CallView::DeleteTree(wide(plan.keys[k])),
        )
    &&& forall|j: int| 0 <= j < n ==> #[trigger] install_block(plan, replies, t, j)
    &&& t[7 * n] == StepView::Finished(Ok(()))
}

/// When the registry accepts every call, installing the verb over keys
/// that all split makes exactly the calls of `install_trace` and ends in
/// success.
pub proof fn lemma_install_when_all_succeed(plan: Plan, replies: Seq<RegistryReply>)
    requires
        plan.install,
        all_keys_split(plan.keys),
        replies.len() == 7 * plan.keys.len(),
        all_succeed(replies),
    ensures
        install_trace(plan, replies, trace(plan, replies)),
{
    lemma_install_when_writes_succeed(plan, replies);
}

/// The statuses of deletions and of closes never change what follows:
/// when the registry accepts every creation and write, installing the verb
/// over keys that all split makes exactly the calls of `install_trace` and
/// ends in success, whatever the deletions and the closes return (a stale
/// key may be absent, and `CloseHandle` reports success as non-zero).
#[verifier::spinoff_prover]
#[verifier::rlimit(40)]
pub proof fn lemma_install_when_writes_succeed(plan: Plan, replies: Seq<RegistryReply>)
    requires
        plan.install,
        all_keys_split(plan.keys),
        replies.len() == 7 * plan.keys.len(),
        install_writes_succeed(plan.keys.len() as int, replies),
    ensures
        install_trace(plan, replies, trace(plan, replies)),
{
    let n = plan.keys.len() as int;
    let (p0, s0) = first_step(plan);
    let t = trace(plan, replies);
    lemma_steps_len(plan, p0, replies);
    if n == 0 {
        assert(t =~= seq![s0]);
        assert(s0 == StepView::Finished(Ok(())));
    } else {
        assert(subkey_of(plan.keys[0]) is Some);
        assert(next_clear(plan.keys, 0) == 0);
        let clear = replies.take(n);
        let main = replies.skip(n);
        assert(replies =~= clear + main);
        lemma_clearing(plan, p0, clear);
        lemma_steps_append(plan, p0, clear, main);
        let p1 = progress_after(plan, p0, clear);
        assert(writes_succeed(main)) by {
            assert forall|k: int| 0 <= k < main.len() && k % 6 < 4 implies (#[trigger] main[k]).status
                == 0 by {
                assert(main[k] == replies[n + k]);
                assert((n + k - n) % 6 == k % 6);
            }
        }
        lemma_keys_from(plan, p1, main);
        let cs = steps_after(plan, p0, clear);
        let ms = steps_after(plan, p1, main);
        assert(t =~= seq![s0] + cs + ms);
        assert forall|k: int| 0 <= k < n implies #[trigger] t[k] == StepView::Call(
            CallView::DeleteTree(wide(plan.keys[k])),
        ) by {
            if k > 0 {
                assert(t[k] == cs[k - 1]);
                assert(1 + (k - 1) == k);
            }
        }
        assert forall|j: int| 0 <= j < n implies #[trigger] install_block(plan, replies, t, j) by {
            let base = n + 6 * j;
            assert(key_block(plan, p1.index, main, ms, j));
            assert(main[6 * j] == replies[base]);
            assert(main[6 * j + 2] == replies[base + 2]);
            assert(ms[6 * j] == t[base + 1]);
            assert(ms[6 * j + 1] == t[base + 2]);
            assert(ms[6 * j + 2] == t[base + 3]);
            assert(ms[6 * j + 3] == t[base + 4]);
            assert(ms[6 * j + 4] == t[base + 5]);
            if j == 0 {
                assert(t[base] == cs[n - 1]);
            } else {
                let jj = j - 1;
                assert(6 * jj + 5 == 6 * j - 1);
                assert(key_block(plan, p1.index, main, ms, jj));
                assert(ms[6 * jj + 5] == t[base]);
                assert(subkey_of(plan.keys[j]) is Some);
            }
        }
        let last = n - 1;
        assert(key_block(plan, p1.index, main, ms, last));
        assert(ms[6 * last + 5] == t[7 * n]);
    }
}

/// Once a creation or a write fails, the procedure stops with that status
/// and reports it for every later reply too; it makes no further call.
pub proof fn lemma_failure_stops(
    plan: Plan,
    p: Progress,
    reply: RegistryReply,
    later: Seq<RegistryReply>,
)
    requires
        p.phase == Phase::CreatingVerb || p.phase == Phase::NamingVerb || p.phase
            == Phase::CreatingCommand || p.phase == Phase::SettingCommand,
        reply.status != 0,
    ensures
        steps_after(plan, p, seq![reply] + later) == Seq::new(
            later.len() + 1,
            |k: int| StepView::Finished(Err(RegistryError::Os(reply.status))),
        ),
{
    let all = seq![reply] + later;
    let (q, step) = next_step(plan, p, reply);
    assert(all[0] == reply);
    assert(all.drop_first() =~= later);
    lemma_done_stays(plan, q, later);
    assert(steps_after(plan, p, all) =~= Seq::new(
        later.len() + 1,
        |k: int| StepView::Finished(Err(RegistryError::Os(reply.status))),
    ));
}

/// Whether a step is a call that deletes a key.
pub open spec fn is_deletion(s: StepView) -> bool {
    s matches StepView::Call(CallView::DeleteTree(_))
}

/// Whether a step is a call that creates, writes or closes a key.
pub open spec fn is_write(s: StepView) -> bool {
    s is Call && !is_deletion(s)
}

/// Only the clearing phase deletes, and a step that is not a deletion
/// leaves it for good.
proof fn lemma_step_phase(plan: Plan, p: Progress, reply: RegistryReply)
    ensures
        is_deletion(next_step(plan, p, reply).1) ==> p.phase == Phase::Clearing,
        is_write(next_step(plan, p, reply).1) ==> next_step(plan, p, reply).0.phase != Phase::Clearing,
        p.phase != Phase::Clearing ==> next_step(plan, p, reply).0.phase != Phase::Clearing,
{
}

proof fn lemma_no_deletion_after_clearing(plan: Plan, p: Progress, replies: Seq<RegistryReply>)
    requires
        p.phase != Phase::Clearing,
    ensures
        forall|k: int|
            0 <= k < steps_after(plan, p, replies).len() ==> !is_deletion(
                #[trigger] steps_after(plan, p, replies)[k],
            ),
    decreases replies.len(),
{
    if replies.len() > 0 {
        let (q, step) = next_step(plan, p, replies[0]);
        lemma_step_phase(plan, p, replies[0]);
        lemma_no_deletion_after_clearing(plan, q, replies.drop_first());
        let all = steps_after(plan, p, replies);
        assert forall|k: int| 0 <= k < all.len() implies !is_deletion(#[trigger] all[k]) by {
            if k > 0 {
                assert(all[k] == steps_after(plan, q, replies.drop_first())[k - 1]);
            }
        }
    }
}

proof fn lemma_deletions_first_from(plan: Plan, p: Progress, replies: Seq<RegistryReply>)
    ensures
        forall|a: int, b: int|
            0 <= a < b < steps_after(plan, p, replies).len() && is_write(
                #[trigger] steps_after(plan, p, replies)[a],
            ) ==> !is_deletion(#[trigger] steps_after(plan, p, replies)[b]),
    decreases replies.len(),
{
    if replies.len() > 0 {
        let (q, step) = next_step(plan, p, replies[0]);
        let rest = replies.drop_first();
        lemma_step_phase(plan, p, replies[0]);
        lemma_deletions_first_from(plan, q, rest);
        let all = steps_after(plan, p, replies);
        let tail = steps_after(plan, q, rest);
        if q.phase != Phase::Clearing {
            lemma_no_deletion_after_clearing(plan, q, rest);
        }
        assert forall|a: int, b: int|
            0 <= a < b < all.len() && is_write(#[trigger] all[a]) implies !is_deletion(
                #[trigger] all[b],
            ) by {
            assert(all[b] == tail[b - 1]);
            if a > 0 {
                assert(all[a] == tail[a - 1]);
            }
        }
    }
}

/// Stale entries go first: whatever the registry answers, no key is
/// deleted once a key has been created, written or closed, so the
/// removal of an old command line never undoes the new one.
pub proof fn lemma_deletions_come_first(plan: Plan, replies: Seq<RegistryReply>)
    ensures
        forall|a: int, b: int|
            0 <= a < b < trace(plan, replies).len() && is_write(#[trigger] trace(plan, replies)[a])
                ==> !is_deletion(#[trigger] trace(plan, replies)[b]),
{
    let (p, step) = first_step(plan);
    let t = trace(plan, replies);
    let tail = steps_after(plan, p, replies);
    lemma_deletions_first_from(plan, p, replies);
    lemma_step_phase(plan, initial_progress(), RegistryReply { status: 0, key: 0 });
    assert(clear_from(plan, initial_progress(), 0) == next_step(
        plan,
        initial_progress(),
        RegistryReply { status: 0, key: 0 },
    ));
    if p.phase != Phase::Clearing {
        lemma_no_deletion_after_clearing(plan, p, replies);
    }
    assert forall|a: int, b: int|
        0 <= a < b < t.len() && is_write(#[trigger] t[a]) implies !is_deletion(#[trigger] t[b]) by {
        assert(t[b] == tail[b - 1]);
        if a > 0 {
            assert(t[a] == tail[a - 1]);
        }
    }
}

proof fn lemma_path_splits(path: Seq<char>, k: int)
    requires
        0 <= k < path.len(),
        path[k] == '\\',
    ensures
        subkey_of(path) is Some,
{
    path.index_of_first_ensures('\\');
}

/// The three verb key paths all name a key below a class key.
pub proof fn lemma_verb_keys_split()
    ensures
        all_keys_split(verb_key_paths()),
{
    reveal_strlit("Directory\\shell\\meatshell");
    reveal_strlit("Directory\\Background\\shell\\meatshell");
    reveal_strlit("*\\shell\\meatshell");
    let keys = verb_key_paths();
    lemma_path_splits(keys[0], 9);
    lemma_path_splits(keys[1], 9);
    lemma_path_splits(keys[2], 1);
}

/// Registering the context-menu verb, when the registry accepts every
/// call, first deletes the three verb keys and then creates each of them
/// with the menu label and the command line `command`, ending in success.
pub proof fn lemma_register_when_all_succeed(command: Seq<char>, replies: Seq<RegistryReply>)
    requires
        replies.len() == 21,
        all_succeed(replies),
    ensures
        install_trace(
            Plan { keys: verb_key_paths(), label: verb_label(), command, install: true },
            replies,
            trace(Plan { keys: verb_key_paths(), label: verb_label(), command, install: true }, replies),
        ),
{
    lemma_verb_keys_split();
    lemma_install_when_all_succeed(
        Plan { keys: verb_key_paths(), label: verb_label(), command, install: true },
        replies,
    );
}

/// The whole trace is what the procedure gives from its initial progress,
/// whatever the first reply, since the first step reads none.
proof fn lemma_trace_from_initial(plan: Plan, first: RegistryReply, replies: Seq<RegistryReply>)
    ensures
        trace(plan, replies) == steps_after(plan, initial_progress(), seq![first] + replies),
        first_step(plan) == next_step(plan, initial_progress(), first),
{
    let all = seq![first] + replies;
    assert(all[0] == first);
    assert(all.drop_first() =~= replies);
    assert(first_step(plan) == next_step(plan, initial_progress(), first));
}

/// Removing the verb over keys that all split deletes each verb key, at
/// its full path under `HKEY_CLASSES_ROOT`, in order, and succeeds,
/// whatever the registry answers.
proof fn lemma_removal_trace(plan: Plan, p: Progress, replies: Seq<RegistryReply>)
    requires
        !plan.install,
        all_keys_split(plan.keys),
        p.phase == Phase::Clearing,
        0 <= p.index <= plan.keys.len(),
        replies.len() == plan.keys.len() - p.index + 1,
    ensures
        steps_after(plan, p, replies).len() == replies.len(),
        forall|k: int|
            0 <= k < plan.keys.len() - p.index ==> #[trigger] steps_after(plan, p, replies)[k]
                == StepView::Call(CallView::DeleteTree(wide(plan.keys[p.index + k]))),
        steps_after(plan, p, replies)[plan.keys.len() - p.index] == StepView::Finished(Ok(())),
    decreases plan.keys.len() - p.index,
{
    let n = plan.keys.len() as int;
    let (q, step) = next_step(plan, p, replies[0]);
    let rest = replies.drop_first();
    lemma_steps_len(plan, q, rest);
    if p.index < n {
        assert(subkey_of(plan.keys[p.index]) is Some);
        lemma_removal_trace(plan, q, rest);
        let steps = steps_after(plan, p, replies);
        assert forall|k: int| 0 <= k < n - p.index implies #[trigger] steps[k] == StepView::Call(
            CallView::DeleteTree(wide(plan.keys[p.index + k])),
        ) by {
            if k > 0 {
                assert(steps[k] == steps_after(plan, q, rest)[k - 1]);
                assert(q.index + (k - 1) == p.index + k);
            }
        }
        assert(steps[n - p.index] == steps_after(plan, q, rest)[n - p.index - 1]);
    } else {
        assert(next_clear(plan.keys, p.index) == n);
    }
}

/// Removal deletes exactly the keys that installation creates: for the
/// same verb key paths, when the registry accepts every installation call,
/// the `j`-th key that installation creates under `HKEY_CLASSES_ROOT` is
/// the `j`-th key that removal deletes (with all below it), whatever the
/// registry answers removal; removal makes no other call and succeeds.
pub proof fn lemma_removal_deletes_installed_keys(
    keys: Seq<Seq<char>>,
    label: Seq<char>,
    command: Seq<char>,
    install_replies: Seq<RegistryReply>,
    removal_replies: Seq<RegistryReply>,
)
    requires
        all_keys_split(keys),
        install_replies.len() == 7 * keys.len(),
        all_succeed(install_replies),
        removal_replies.len() == keys.len(),
    ensures
        ({
            let install = Plan { keys, label, command, install: true };
            let removal = Plan { keys, label, command, install: false };
            let ti = trace(install, install_replies);
            let tr = trace(removal, removal_replies);
            &&& tr.len() == keys.len() + 1
            &&& forall|j: int|
                0 <= j < keys.len() ==> (#[trigger] ti[keys.len() + 6 * j]) == StepView::Call(
                    CallView::CreateKey(KeyHandle::ClassesRoot, tr[j]->Call_0->DeleteTree_0),
                ) && tr[j] is Call && tr[j]->Call_0 is DeleteTree
            &&& tr[keys.len() as int] == StepView::Finished(Ok(()))
        }),
{
    let install = Plan { keys, label, command, install: true };
    let removal = Plan { keys, label, command, install: false };
    let ti = trace(install, install_replies);
    let tr = trace(removal, removal_replies);
    lemma_install_when_all_succeed(install, install_replies);
    let r0 = RegistryReply { status: 0, key: 0 };
    lemma_trace_from_initial(removal, r0, removal_replies);
    lemma_removal_trace(removal, initial_progress(), seq![r0] + removal_replies);
    assert forall|j: int| 0 <= j < keys.len() implies (#[trigger] ti[keys.len() + 6 * j])
        == StepView::Call(CallView::CreateKey(KeyHandle::ClassesRoot, tr[j]->Call_0->DeleteTree_0))
        && tr[j] is Call && tr[j]->Call_0 is DeleteTree by {
        assert(install_block(install, install_replies, ti, j));
        assert(0 + j == j);
    }
}

/// Whether a step is a call that creates a key.
pub open spec fn is_creation(s: StepView) -> bool {
    s matches StepView::Call(CallView::CreateKey(_, _))
}

/// Whether a step is a call that writes a value.
pub open spec fn is_value_write(s: StepView) -> bool {
    s matches StepView::Call(CallView::SetString(_, _, _, _))
}

/// How many of `steps` satisfy `pred`.
pub open spec fn count_of(steps: Seq<StepView>, pred: spec_fn(StepView) -> bool) -> nat
    decreases steps.len(),
{
    if steps.len() == 0 {
        0
    } else {
        (if pred(steps[0]) {
            1nat
        } else {
            0nat
        }) + count_of(steps.drop_first(), pred)
    }
}

/// How many more deletions, creations and value writes a procedure can
/// make from progress `p`.
pub open spec fn call_budget(plan: Plan, p: Progress) -> (int, int, int) {
    let n = plan.keys.len() as int;
    let left = n - p.index;
    match p.phase {
        Phase::Clearing => (left, if plan.install { 2 * n } else { 0 }, if plan.install { 2 * n } else { 0 }),
        Phase::CreatingVerb => (0, 2 * left - 1, 2 * left),
        Phase::NamingVerb => (0, 2 * left - 1, 2 * left - 1),
        Phase::CreatingCommand => (0, 2 * left - 2, 2 * left - 1),
        Phase::Done => (0, 0, 0),
        _ => (0, 2 * left - 2, 2 * left - 2),
    }
}

proof fn lemma_budget_step(plan: Plan, p: Progress, reply: RegistryReply)
    requires
        reachable(plan, p),
    ensures
        ({
            let (q, s) = next_step(plan, p, reply);
            let (d0, c0, w0) = call_budget(plan, p);
            let (d1, c1, w1) = call_budget(plan, q);
            &&& d1 + (if is_deletion(s) { 1int } else { 0 }) <= d0
            &&& c1 + (if is_creation(s) { 1int } else { 0 }) <= c0
            &&& w1 + (if is_value_write(s) { 1int } else { 0 }) <= w0
            &&& 0 <= d1 && 0 <= c1 && 0 <= w1
        }),
{
    lemma_step_progress(plan, p, reply);
    if p.phase == Phase::Clearing {
        lemma_next_clear_bounds(plan.keys, p.index);
    }
}

proof fn lemma_budget_run(plan: Plan, p: Progress, replies: Seq<RegistryReply>)
    requires
        reachable(plan, p),
    ensures
        ({
            let steps = steps_after(plan, p, replies);
            let (d, c, w) = call_budget(plan, p);
            &&& count_of(steps, |s: StepView| is_deletion(s)) <= d
            &&& count_of(steps, |s: StepView| is_creation(s)) <= c
            &&& count_of(steps, |s: StepView| is_value_write(s)) <= w
        }),
    decreases replies.len(),
{
    if replies.len() > 0 {
        let (q, s) = next_step(plan, p, replies[0]);
        lemma_budget_step(plan, p, replies[0]);
        lemma_step_progress(plan, p, replies[0]);
        lemma_budget_run(plan, q, replies.drop_first());
        let steps = steps_after(plan, p, replies);
        assert(steps[0] == s);
        assert(steps.drop_first() == steps_after(plan, q, replies.drop_first()));
    } else {
        lemma_budget_nonneg(plan, p);
    }
}

proof fn lemma_budget_nonneg(plan: Plan, p: Progress)
    requires
        reachable(plan, p),
    ensures
        call_budget(plan, p).0 >= 0,
        call_budget(plan, p).1 >= 0,
        call_budget(plan, p).2 >= 0,
{
}

/// However the registry answers, a procedure over `n` verb keys makes at
/// most `n` deletions, `2 n` key creations and `2 n` value writes (for the
/// three verb keys: 3, 6 and 6), and removal makes no creation or write.
pub proof fn lemma_registration_call_counts(plan: Plan, replies: Seq<RegistryReply>)
    ensures
        count_of(trace(plan, replies), |s: StepView| is_deletion(s)) <= plan.keys.len(),
        count_of(trace(plan, replies), |s: StepView| is_creation(s)) <= if plan.install {
            2 * plan.keys.len()
        } else {
            0
        },
        count_of(trace(plan, replies), |s: StepView| is_value_write(s)) <= if plan.install {
            2 * plan.keys.len()
        } else {
            0
        },
{
    let r0 = RegistryReply { status: 0, key: 0 };
    lemma_trace_from_initial(plan, r0, replies);
    lemma_budget_run(plan, initial_progress(), seq![r0] + replies);
}

/// The phases in which a verb key is being created or written, in order.
pub open spec fn writing_phase(k: int) -> Phase {
    if k == 0 {
        Phase::CreatingVerb
    } else if k == 1 {
        Phase::NamingVerb
    } else if k == 2 {
        Phase::CreatingCommand
    } else {
        Phase::SettingCommand
    }
}

/// Accepted replies move a key through its creations and writes.
proof fn lemma_partial_key(plan: Plan, p: Progress, k: int, replies: Seq<RegistryReply>)
    requires
        0 <= k,
        k + replies.len() <= 3,
        p.phase == writing_phase(k),
        all_succeed(replies),
    ensures
        progress_after(plan, p, replies).phase == writing_phase(k + replies.len()),
        steps_after(plan, p, replies).len() == replies.len(),
    decreases replies.len(),
{
    if replies.len() > 0 {
        assert(replies[0].status == 0);
        let q = next_step(plan, p, replies[0]).0;
        assert(all_succeed(replies.drop_first()));
        lemma_partial_key(plan, q, k + 1, replies.drop_first());
    }
}

/// When the creations and writes of the first `j` verb keys are accepted
/// (deletions at the start may fail or not), those keys are fully written
/// and key `j` is then created at its full path, leaving the procedure
/// waiting on that creation.
#[verifier::spinoff_prover]
#[verifier::rlimit(40)]
proof fn lemma_blocks_before(plan: Plan, replies: Seq<RegistryReply>, j: int)
    requires
        plan.install,
        all_keys_split(plan.keys),
        0 <= j < plan.keys.len(),
        replies.len() >= plan.keys.len() + 6 * j,
        forall|k: int|
            plan.keys.len() <= k < plan.keys.len() + 6 * j ==> (#[trigger] replies[k]).status == 0,
    ensures
        ({
            let n = plan.keys.len() as int;
            let t = trace(plan, replies);
            &&& t.len() == replies.len() + 1
            &&& forall|jj: int| 0 <= jj < j ==> #[trigger] install_block(plan, replies, t, jj)
            &&& t[n + 6 * j] == StepView::Call(
                CallView::CreateKey(KeyHandle::ClassesRoot, wide(plan.keys[j])),
            )
            &&& progress_after(plan, first_step(plan).0, replies.take(n + 6 * j)).phase
                == Phase::CreatingVerb
        }),
{
    let n = plan.keys.len() as int;
    let (p0, s0) = first_step(plan);
    let t = trace(plan, replies);
    lemma_steps_len(plan, p0, replies);
    assert(subkey_of(plan.keys[0]) is Some);
    assert(next_clear(plan.keys, 0) == 0);
    let clear = replies.take(n);
    let pre = replies.subrange(n, n + 6 * j);
    let others = replies.skip(n + 6 * j);
    assert(replies =~= clear + (pre + others));
    assert(replies.take(n + 6 * j) =~= clear + pre);
    lemma_clearing(plan, p0, clear);
    lemma_steps_append(plan, p0, clear, pre + others);
    lemma_steps_append(plan, p0, clear, pre);
    let p1 = progress_after(plan, p0, clear);
    lemma_steps_append(plan, p1, pre, others);
    assert(all_succeed(pre)) by {
        assert forall|k: int| 0 <= k < pre.len() implies (#[trigger] pre[k]).status == 0 by {
            assert(pre[k] == replies[n + k]);
        }
    }
    assert(pre.len() / 6 == j);
    lemma_keys_prefix(plan, p1, pre);
    let cs = steps_after(plan, p0, clear);
    let ps = steps_after(plan, p1, pre);
    let os = steps_after(plan, progress_after(plan, p1, pre), others);
    assert(t == seq![s0] + (cs + (ps + os)));
    assert forall|jj: int| 0 <= jj < j implies #[trigger] install_block(plan, replies, t, jj) by {
        let base = n + 6 * jj;
        assert(key_block(plan, p1.index, pre, ps, jj));
        assert(pre[6 * jj] == replies[base]);
        assert(pre[6 * jj + 2] == replies[base + 2]);
        assert(ps[6 * jj] == t[base + 1]);
        assert(ps[6 * jj + 1] == t[base + 2]);
        assert(ps[6 * jj + 2] == t[base + 3]);
        assert(ps[6 * jj + 3] == t[base + 4]);
        assert(ps[6 * jj + 4] == t[base + 5]);
        if jj == 0 {
            assert(t[base] == cs[n - 1]);
        } else {
            let k = jj - 1;
            assert(key_block(plan, p1.index, pre, ps, k));
            assert(6 * k + 5 == 6 * jj - 1);
            assert(ps[6 * k + 5] == t[base]);
            assert(subkey_of(plan.keys[jj]) is Some);
        }
    }
    if j == 0 {
        assert(t[n] == cs[n - 1]);
    } else {
        let k = j - 1;
        assert(key_block(plan, p1.index, pre, ps, k));
        assert(ps[6 * k + 5] == t[n + 6 * j]);
        assert(subkey_of(plan.keys[j]) is Some);
    }
}

/// From the creation of a verb key, accepted replies up to a failing one
/// at offset `o` leave only `Finished` steps after the failure.
proof fn lemma_fail_within_key(plan: Plan, p: Progress, o: int, replies: Seq<RegistryReply>)
    requires
        p.phase == Phase::CreatingVerb,
        0 <= o < 4,
        replies.len() > o,
        forall|k: int| 0 <= k < o ==> (#[trigger] replies[k]).status == 0,
        replies[o].status != 0,
    ensures
        steps_after(plan, p, replies).len() == replies.len(),
        forall|k: int|
            o <= k < replies.len() ==> #[trigger] steps_after(plan, p, replies)[k]
                == StepView::Finished(Err(RegistryError::Os(replies[o].status))),
{
    let mid = replies.take(o);
    let rest = replies.skip(o);
    assert(replies =~= mid + rest);
    lemma_steps_append(plan, p, mid, rest);
    assert(all_succeed(mid));
    lemma_partial_key(plan, p, 0, mid);
    let pf = progress_after(plan, p, mid);
    let later = rest.drop_first();
    assert(rest =~= seq![rest[0]] + later);
    lemma_failure_stops(plan, pf, rest[0], later);
    lemma_steps_len(plan, p, replies);
}

/// When the registry accepts every creation and write until the first
/// failing one, which belongs to verb key `j` (its creation, label,
/// `command` subkey or command line, at offset `o`), installation has by
/// then fully written every key before `j`, had started key `j` by creating
/// it at its full path, and stops with the failing status: no later key is
/// created or written. Deletions at the start may fail or not.
#[verifier::spinoff_prover]
#[verifier::rlimit(40)]
pub proof fn lemma_keys_written_before_failure(
    plan: Plan,
    replies: Seq<RegistryReply>,
    j: int,
    o: int,
)
    requires
        plan.install,
        all_keys_split(plan.keys),
        0 <= j < plan.keys.len(),
        0 <= o < 4,
        replies.len() > plan.keys.len() + 6 * j + o,
        forall|k: int|
            plan.keys.len() <= k < plan.keys.len() + 6 * j + o ==> (#[trigger] replies[k]).status
                == 0,
        replies[plan.keys.len() + 6 * j + o].status != 0,
    ensures
        ({
            let n = plan.keys.len() as int;
            let t = trace(plan, replies);
            let f = n + 6 * j + o;
            &&& t.len() == replies.len() + 1
            &&& forall|jj: int| 0 <= jj < j ==> #[trigger] install_block(plan, replies, t, jj)
            &&& t[n + 6 * j] == StepView::Call(
                CallView::CreateKey(KeyHandle::ClassesRoot, wide(plan.keys[j])),
            )
            &&& forall|k: int|
                f < k < t.len() ==> #[trigger] t[k] == StepView::Finished(
                    Err(RegistryError::Os(replies[f].status)),
                )
        }),
{
    let n = plan.keys.len() as int;
    let f = n + 6 * j + o;
    lemma_blocks_before(plan, replies, j);
    let (p0, s0) = first_step(plan);
    let head = replies.take(n + 6 * j);
    let tail = replies.skip(n + 6 * j);
    assert(replies =~= head + tail);
    lemma_steps_append(plan, p0, head, tail);
    let pj = progress_after(plan, p0, head);
    assert forall|k: int| 0 <= k < o implies (#[trigger] tail[k]).status == 0 by {
        assert(tail[k] == replies[n + 6 * j + k]);
    }
    assert(tail[o] == replies[f]);
    lemma_fail_within_key(plan, pj, o, tail);
    let t = trace(plan, replies);
    let hs = steps_after(plan, p0, head);
    let ts = steps_after(plan, pj, tail);
    assert(t == seq![s0] + (hs + ts));
    assert forall|k: int| f < k < t.len() implies #[trigger] t[k] == StepView::Finished(
        Err(RegistryError::Os(replies[f].status)),
    ) by {
        assert(t[k] == ts[k - 1 - n - 6 * j]);
    }
}

/// Registering the context-menu verb, when the registry accepts every
/// creation and write, deletes the three verb keys and creates each of them
/// with the menu label and the command line `command`, ending in success,
/// whatever the three deletions and the six closes return.
pub proof fn lemma_register_when_writes_succeed(command: Seq<char>, replies: Seq<RegistryReply>)
    requires
        replies.len() == 21,
        install_writes_succeed(3, replies),
    ensures
        install_trace(
            Plan { keys: verb_key_paths(), label: verb_label(), command, install: true },
            replies,
            trace(Plan { keys: verb_key_paths(), label: verb_label(), command, install: true }, replies),
        ),
        trace(Plan { keys: verb_key_paths(), label: verb_label(), command, install: true }, replies)[21]
            == StepView::Finished(Ok(())),
{
    lemma_verb_keys_split();
    lemma_install_when_writes_succeed(
        Plan { keys: verb_key_paths(), label: verb_label(), command, install: true },
        replies,
    );
}

/// The verb's command line holds the whole program path, whatever its
/// length, between its first two quotes, followed by exactly the flags that
/// the launch reads: `--new-window`, then `--dir` with the item Explorer
/// puts in place of `%V`, in quotes.
pub proof fn lemma_command_line_layout(exe: Seq<char>)
    ensures
        command_line_of(exe).len() == exe.len() + 26,
        command_line_of(exe)[0] == '"',
        command_line_of(exe).subrange(1, exe.len() as int + 1) == exe,
        command_line_of(exe).skip(exe.len() as int + 1) == seq!['"', ' '] + new_window_flag() + seq![' ']
            + dir_flag() + seq![' ', '"', '%', 'V', '"'],
{
    reveal_strlit("\" --new-window --dir \"%V\"");
    reveal_strlit("--new-window");
    reveal_strlit("--dir");
    let c = command_line_of(exe);
    assert(c.subrange(1, exe.len() as int + 1) =~= exe);
    assert(c.skip(exe.len() as int + 1) =~= command_tail());
    assert(command_tail() =~= seq!['"', ' '] + new_window_flag() + seq![' '] + dir_flag() + seq![
        ' ',
        '"',
        '%',
        'V',
        '"',
    ]);
}

/// A wide string of fewer than 2^31 units takes two bytes per unit.
pub proof fn lemma_byte_len_two_per_unit(len: nat)
    requires
        len < 0x8000_0000,
    ensures
        wide_byte_len(len) == 2 * len,
{
}

/// UTF-16 keeps a character of the basic multilingual plane as one unit
/// equal to its code point, and splits any other (up to U+10FFFF) into a
/// high surrogate (`D800`–`DBFF`) and a low surrogate (`DC00`–`DFFF`) from
/// which the code point is recovered.
pub proof fn lemma_utf16_decodes(c: char)
    ensures
        (c as u32) < 0x10000 ==> utf16_of_char(c) == seq![(c as u32) as u16],
        0x10000 <= (c as u32) <= 0x10FFFF ==> {
            let u = utf16_of_char(c);
            &&& u.len() == 2
            &&& 0xD800 <= u[0] <= 0xDBFF
            &&& 0xDC00 <= u[1] <= 0xDFFF
            &&& (u[0] - 0xD800) * 0x400 + (u[1] - 0xDC00) + 0x10000 == c as u32
        },
        utf16(seq![c]) == utf16_of_char(c),
{
    assert(seq![c].drop_last() =~= Seq::<char>::empty());
    assert(utf16(Seq::<char>::empty()) =~= Seq::<u16>::empty());
    assert(Seq::<u16>::empty() + utf16_of_char(c) =~= utf16_of_char(c));
    let v = c as u32;
    if 0x10000 <= v <= 0x10FFFF {
        let w = (v - 0x10000) as u32;
        assert(w / 0x400 <= 0x3FF);
        assert(w % 0x400 < 0x400);
        assert((w / 0x400) * 0x400 + w % 0x400 == w);
    }
}

} // verus!
