//! What passes between the application and the system it runs on: files picked,
//! files saved.

use vstd::prelude::*;

verus! {

/// Which slot an opened file is destined for.
#[derive(Debug, Clone, Copy, PartialEq, Eq, Structural)]
pub enum PickKind {
    Depth,
    Photo,
    Settings,
}

impl PickKind {
    pub open spec fn title(self) -> Seq<char> {
        match self {
            PickKind::Depth => "Depth map"@,
            PickKind::Photo => "Image"@,
            PickKind::Settings => "Settings"@,
        }
    }

    pub open spec fn suffixes(self) -> Seq<Seq<char>> {
        match self {
            PickKind::Depth | PickKind::Photo => seq!["png"@, "jpg"@, "jpeg"@],
            PickKind::Settings => seq!["json"@],
        }
    }

    /// What a file dialog offers: a title and the extensions it lets through.
    pub fn filter(self) -> (r: (&'static str, Vec<&'static str>))
        ensures
            r.0@ == self.title(),
            r.1@.len() == self.suffixes().len(),
            forall|i: int| 0 <= i < r.1@.len() ==> (#[trigger] r.1@[i])@ == self.suffixes()[i],
    {
        match self {
            PickKind::Depth => ("Depth map", vec!["png", "jpg", "jpeg"]),
            PickKind::Photo => ("Image", vec!["png", "jpg", "jpeg"]),
            PickKind::Settings => ("Settings", vec!["json"]),
        }
    }
}

/// How a save went.
#[derive(Debug, Clone, PartialEq, Eq)]
pub enum Saved {
    /// Written to this path.
    To(String),
    /// Handed to the browser as a download.
    Downloaded,
    /// The user dismissed the dialog.
    Cancelled,
}

/// How a file pick went.
#[derive(Debug, Clone, PartialEq, Eq)]
pub enum Opened {
    File { kind: PickKind, name: String, bytes: Vec<u8> },
    Cancelled,
}

/// Where an in-flight file pick delivers its result. It holds one; a later
/// delivery replaces it.
#[derive(Default)]
pub struct Inbox(Option<Result<Opened, String>>);

impl Inbox {
    /// What has been delivered and not yet taken.
    pub closed spec fn waiting(self) -> Option<Result<Opened, String>> {
        self.0
    }

    pub fn new() -> (r: Self)
        ensures
            r.waiting() is None,
    {
        Inbox(None)
    }

    /// Take the delivery out, if there is one.
    pub fn take(&mut self) -> (r: Option<Result<Opened, String>>)
        ensures
            r == old(self).waiting(),
            final(self).waiting() == after_use(old(self).waiting(), Use::Take),
            final(self).waiting() is None,
    {
        self.0.take()
    }

    pub fn put(&mut self, result: Result<Opened, String>)
        ensures
            final(self).waiting() == after_use(old(self).waiting(), Use::Put(result)),
            final(self).waiting() == Some(result),
    {
        self.0 = Some(result);
    }
}

/// One use of an inbox, by whoever has a handle to it.
pub enum Use {
    Put(Result<Opened, String>),
    Take,
}

/// What one use leaves waiting.
pub open spec fn after_use(
    waiting: Option<Result<Opened, String>>,
    u: Use,
) -> Option<Result<Opened, String>> {
    match u {
        Use::Put(result) => Some(result),
        Use::Take => None,
    }
}

/// What some uses, one behind the other, leave waiting.
pub open spec fn left_by(
    waiting: Option<Result<Opened, String>>,
    uses: Seq<Use>,
) -> Option<Result<Opened, String>>
    decreases uses.len(),
{
    if uses.len() == 0 {
        waiting
    } else {
        after_use(left_by(waiting, uses.drop_last()), uses.last())
    }
}

/// However the handles of an inbox take turns, the latest delivery wins, and
/// once it is taken there is nothing to take until the next.
pub proof fn law_latest_delivery_wins(
    before: Inbox,
    uses: Seq<Use>,
    result: Result<Opened, String>,
    takes: nat,
)
    ensures
        left_by(before.waiting(), uses.push(Use::Put(result))) == Some(result),
        takes >= 1 ==> left_by(
            before.waiting(),
            uses.push(Use::Put(result)) + Seq::new(takes, |i: int| Use::Take),
        ) is None,
{
}

} // verus!
