//! The transforms as named commands, matched by prefix in a fixed order.
use vstd::prelude::*;
use vstd::string::StringSliceAdditionalSpecFns;

verus! {

/// A transform that the command line can name.
#[derive(Clone, Copy, Debug, PartialEq, Eq, Structural)]
pub enum Command {
    Interpolate,
    Fractalize,
    Expand,
    ReversePseudoCycles,
    Fold,
    HardClip,
    SoftClip,
    Tense,
    TensePseudoCycles,
    Decimate,
    DelayPitch,
    DelayRotate,
    Speed,
    Gain,
    Dc,
    RemoveDc,
    Normalize,
}

/// The commands in the order in which a name is tried against them.
pub open spec fn command_order() -> Seq<Command> {
    seq![
        Command::Interpolate,
        Command::Fractalize,
        Command::Expand,
        Command::ReversePseudoCycles,
        Command::Fold,
        Command::HardClip,
        Command::SoftClip,
        Command::Tense,
        Command::TensePseudoCycles,
        Command::Decimate,
        Command::DelayPitch,
        Command::DelayRotate,
        Command::Speed,
        Command::Gain,
        Command::Dc,
        Command::RemoveDc,
        Command::Normalize,
    ]
}

/// The bytes of the command's full name.
pub open spec fn name_bytes(c: Command) -> Seq<u8> {
    match c {
        Command::Interpolate => "interpolate".spec_bytes(),
        Command::Fractalize => "fractalize".spec_bytes(),
        Command::Expand => "expand".spec_bytes(),
        Command::ReversePseudoCycles => "reversepseudocycles".spec_bytes(),
        Command::Fold => "fold".spec_bytes(),
        Command::HardClip => "hardclip".spec_bytes(),
        Command::SoftClip => "softclip".spec_bytes(),
        Command::Tense => "tense".spec_bytes(),
        Command::TensePseudoCycles => "tensepseudocycles".spec_bytes(),
        Command::Decimate => "decimate".spec_bytes(),
        Command::DelayPitch => "delaypitch".spec_bytes(),
        Command::DelayRotate => "delayrotate".spec_bytes(),
        Command::Speed => "speed".spec_bytes(),
        Command::Gain => "gain".spec_bytes(),
        Command::Dc => "dc".spec_bytes(),
        Command::RemoveDc => "removedc".spec_bytes(),
        Command::Normalize => "normalize".spec_bytes(),
    }
}

pub open spec fn is_prefix(a: Seq<u8>, b: Seq<u8>) -> bool {
    a.len() <= b.len() && a == b.subrange(0, a.len() as int)
}

/// The first command, from position `i` of the order on, of whose name `arg`
/// is a prefix.
pub open spec fn first_match(arg: Seq<u8>, i: int) -> Option<Command>
    decreases command_order().len() - i,
{
    if i < 0 || i >= command_order().len() {
        None
    } else if is_prefix(arg, name_bytes(command_order()[i])) {
        Some(command_order()[i])
    } else {
        first_match(arg, i + 1)
    }
}

impl Command {
    /// The full name of the command.
    pub fn name(&self) -> (r: &'static str)
        ensures
            r.spec_bytes() == name_bytes(*self),
    {
        match self {
            Command::Interpolate => "interpolate",
            Command::Fractalize => "fractalize",
            Command::Expand => "expand",
            Command::ReversePseudoCycles => "reversepseudocycles",
            Command::Fold => "fold",
            Command::HardClip => "hardclip",
            Command::SoftClip => "softclip",
            Command::Tense => "tense",
            Command::TensePseudoCycles => "tensepseudocycles",
            Command::Decimate => "decimate",
            Command::DelayPitch => "delaypitch",
            Command::DelayRotate => "delayrotate",
            Command::Speed => "speed",
            Command::Gain => "gain",
            Command::Dc => "dc",
            Command::RemoveDc => "removedc",
            Command::Normalize => "normalize",
        }
    }

    /// How many arguments follow the command's name.
    pub fn arity(&self) -> (r: usize)
        ensures
            r == match *self {
                Command::DelayPitch => 2usize,
                Command::DelayRotate => 3usize,
                Command::Fractalize | Command::HardClip | Command::SoftClip | Command::Tense
                | Command::TensePseudoCycles | Command::Decimate | Command::Speed | Command::Gain
                | Command::Dc => 1usize,
                _ => 0usize,
            },
    {
        match self {
            Command::DelayPitch => 2,
            Command::DelayRotate => 3,
            Command::Fractalize | Command::HardClip | Command::SoftClip | Command::Tense
            | Command::TensePseudoCycles | Command::Decimate | Command::Speed | Command::Gain
            | Command::Dc => 1,
            _ => 0,
        }
    }
}

/// `a` is a prefix of `b`, byte for byte.
fn starts(a: &[u8], b: &[u8]) -> (r: bool)
    ensures
        r == is_prefix(a@, b@),
{
    if a.len() > b.len() {
        return false;
    }
    let mut i: usize = 0;
    while i < a.len()
        invariant
            a@.len() <= b@.len(),
            i <= a@.len(),
            forall|k: int| 0 <= k < i ==> a@[k] == b@[k],
        decreases a@.len() - i,
    {
        if a[i] != b[i] {
            assert(a@[i as int] != b@.subrange(0, a@.len() as int)[i as int]);
            return false;
        }
        i = i + 1;
    }
    assert(a@ =~= b@.subrange(0, a@.len() as int));
    true
}

/// The command that `arg` names: the first, in the fixed order, of whose name
/// `arg` is a prefix. An empty `arg` names the first command.
pub fn command_named(arg: &str) -> (r: Option<Command>)
    ensures
        r == first_match(arg.spec_bytes(), 0),
{
    let order = vec![
        Command::Interpolate,
        Command::Fractalize,
        Command::Expand,
        Command::ReversePseudoCycles,
        Command::Fold,
        Command::HardClip,
        Command::SoftClip,
        Command::Tense,
        Command::TensePseudoCycles,
        Command::Decimate,
        Command::DelayPitch,
        Command::DelayRotate,
        Command::Speed,
        Command::Gain,
        Command::Dc,
        Command::RemoveDc,
        Command::Normalize,
    ];
    assert(order@ =~= command_order());
    let a = arg.as_bytes();
    let mut i: usize = 0;
    while i < order.len()
        invariant
            order@ == command_order(),
            a@ == arg.spec_bytes(),
            i <= order@.len(),
            first_match(arg.spec_bytes(), 0) == first_match(arg.spec_bytes(), i as int),
        decreases order@.len() - i,
    {
        let c = order[i];
        if starts(a, c.name().as_bytes()) {
            return Some(c);
        }
        i = i + 1;
    }
    None
}

} // verus!
