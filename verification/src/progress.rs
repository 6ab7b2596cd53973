//! Progress of a cache build or load: which phase is active.

use vstd::prelude::*;
use vstd::string::StrSliceExecFns;
use vstd::string::StringExecFns;

verus! {

/// The phase that a cache build or load is in.
#[derive(Clone, Copy, Debug, PartialEq, Eq, Structural)]
pub enum ScanStatus {
    /// Nothing is running.
    Idle,
    /// The scanner context is being created.
    CreatingScanner,
    /// Packages are being scanned; `current_package` counts those done so
    /// far.
    Scanning { current_package: usize, total_packages: usize },
    /// The reverse references are being gathered.
    TransformGathering,
    /// The reverse references are being put into the entries.
    TransformApplying,
    /// The cache is being stored.
    WritingCache,
    /// A stored cache is being read.
    LoadingCache,
}

/// The ten decimal digits in order.
pub open spec fn digits() -> Seq<char> {
    seq!['0', '1', '2', '3', '4', '5', '6', '7', '8', '9']
}

/// The decimal numeral of `n`, without leading zeros.
pub open spec fn decimal(n: nat) -> Seq<char>
    decreases n,
{
    if n < 10 {
        seq![digits()[n as int]]
    } else {
        decimal(n / 10).push(digits()[(n % 10) as int])
    }
}

impl ScanStatus {
    /// The text that describes the phase to a person. The idle phase has no
    /// text; a scan shows the number of the package in work, counted from one,
    /// and the number of packages.
    pub open spec fn label(self) -> Seq<char> {
        match self {
            ScanStatus::Idle => Seq::empty(),
            ScanStatus::CreatingScanner => "Creating scanner"@,
            ScanStatus::Scanning { current_package, total_packages } => "Creating new cache "@
                + decimal((current_package + 1) as nat) + "/"@ + decimal(total_packages as nat),
            ScanStatus::TransformGathering => "Transforming cache (gathering references)"@,
            ScanStatus::TransformApplying => "Transforming cache (applying references)"@,
            ScanStatus::WritingCache => "Writing cache"@,
            ScanStatus::LoadingCache => "Loading cache"@,
        }
    }

    /// The text that describes the phase to a person.
    pub fn to_string(&self) -> (text: String)
        ensures
            text@ == self.label(),
    {
        match self {
            ScanStatus::Idle => String::new(),
            ScanStatus::CreatingScanner => String::from_str("Creating scanner"),
            ScanStatus::Scanning { current_package, total_packages } => {
                let mut text = String::from_str("Creating new cache ");
                append_decimal(&mut text, *current_package as u128 + 1);
                text.append("/");
                append_decimal(&mut text, *total_packages as u128);
                text
            },
            ScanStatus::TransformGathering => String::from_str(
                "Transforming cache (gathering references)",
            ),
            ScanStatus::TransformApplying => String::from_str(
                "Transforming cache (applying references)",
            ),
            ScanStatus::WritingCache => String::from_str("Writing cache"),
            ScanStatus::LoadingCache => String::from_str("Loading cache"),
        }
    }
}

/// Writes the decimal numeral of `n` behind the text.
fn append_decimal(text: &mut String, n: u128)
    ensures
        final(text)@ == old(text)@ + decimal(n as nat),
    decreases n,
{
    if n >= 10 {
        append_decimal(text, n / 10);
    }
    let digit: usize = (n % 10) as usize;
    proof {
        reveal_strlit("0123456789");
        assert("0123456789"@ =~= digits());
        assert("0123456789"@.subrange(digit as int, digit + 1) =~= seq![digits()[digit as int]]);
    }
    let numerals: &str = "0123456789";
    assert(numerals.is_ascii()) by {
        reveal_strlit("0123456789");
    }
    text.append(numerals.substring_ascii(digit, digit + 1));
    assert(text@ =~= old(text)@ + decimal(n as nat));
}

/// The status cell: holds the phase that was recorded last. A process has one
/// of them; the build pipeline writes it and everything else only reads it.
pub struct ScanProgress {
    status: ScanStatus,
}

impl View for ScanProgress {
    type V = ScanStatus;

    closed spec fn view(&self) -> ScanStatus {
        self.status
    }
}

impl ScanProgress {
    /// A cell in the idle phase.
    pub fn new() -> (cell: ScanProgress)
        ensures
            cell@ == ScanStatus::Idle,
    {
        ScanProgress { status: ScanStatus::Idle }
    }

    /// Records a phase, replacing the one held.
    pub fn record(&mut self, status: ScanStatus)
        ensures
            final(self)@ == status,
    {
        self.status = status;
    }

    /// Counts one more package of a scan over `total_packages` packages and
    /// returns how many were counted before. A cell that is not in a scan
    /// enters one, with nothing counted before.
    pub fn count_package(&mut self, total_packages: usize) -> (counted: usize)
        requires
            old(self)@ matches ScanStatus::Scanning { current_package, .. } ==> current_package
                < usize::MAX,
        ensures
            counted == match old(self)@ {
                ScanStatus::Scanning { current_package, .. } => current_package,
                _ => 0,
            },
            final(self)@ == (ScanStatus::Scanning {
                current_package: (counted + 1) as usize,
                total_packages,
            }),
    {
        let counted: usize = match self.status {
            ScanStatus::Scanning { current_package, .. } => current_package,
            _ => 0,
        };
        self.status = ScanStatus::Scanning { current_package: counted + 1, total_packages };
        counted
    }
}

/// The phase that the cell holds.
pub fn scanner_progress(cell: &ScanProgress) -> (status: ScanStatus)
    ensures
        status == cell@,
{
    cell.status
}

} // verus!
