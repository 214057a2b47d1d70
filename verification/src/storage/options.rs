//! Options for opening a database, and what they decide.

use crate::error::{Error, Fault};
use crate::storage::inspect::FormatInfo;
use vstd::prelude::*;

verus! {

/// How many bytes a file grows by, unless told otherwise.
pub const MIN_ALLOC_SIZE: u64 = 8_388_608;

/// How many pages a new file has, unless told otherwise.
pub const DEFAULT_NUM_PAGES: usize = 32;

/// The smallest page size.
pub const MIN_PAGE_SIZE: u64 = 1024;

/// Switches of a database handle.
#[derive(Clone, Copy, Debug)]
pub struct DBFlags {
    pub strict_mode: bool,
    pub mmap_populate: bool,
    pub direct_writes: bool,
    pub read_only: bool,
    pub verify_on_open: bool,
}

/// Options for opening a database.
pub struct OpenOptions {
    pub pagesize: Option<u64>,
    pub num_pages: usize,
    pub max_file_bytes: Option<u64>,
    pub growth_increment: u64,
    pub flags: DBFlags,
}

/// What is to be done to get the file of a database.
#[derive(Clone, Copy, Debug, PartialEq, Eq, Structural)]
pub enum FileAction {
    /// Open the file for reading alone.
    OpenReadOnly,
    /// Make a new file of this many bytes.
    Create { bytes: u64, direct_writes: bool },
    /// Open the file for reading and writing.
    Open { direct_writes: bool },
}

/// How a database is opened.
#[derive(Clone, Copy, Debug, PartialEq, Eq, Structural)]
pub struct OpenPlan {
    pub pagesize: u64,
    pub action: FileAction,
}

/// Whether an explicit page size contradicts the one that a file was made with.
pub open spec fn page_sizes_conflict(
    explicit: Option<u64>,
    detected: Result<FormatInfo, Error>,
) -> bool {
    match (explicit, detected) {
        (Some(size), Ok(info)) => size != info.page_size,
        _ => false,
    }
}

/// The page size to open a file with that exists: the detected one; an explicit
/// one stands in where none can be detected.
pub open spec fn chosen_page_size(
    explicit: Option<u64>,
    detected: Result<FormatInfo, Error>,
) -> Result<u64, Error> {
    match (explicit, detected) {
        (_, Ok(info)) => Ok(info.page_size),
        (Some(size), Err(_)) => Ok(size),
        (None, Err(e)) => Err(e),
    }
}

/// A product that stops at the largest number.
pub open spec fn capped_product(a: u64, b: u64) -> u64 {
    if a * b <= u64::MAX {
        (a * b) as u64
    } else {
        u64::MAX
    }
}

fn times(a: u64, b: u64) -> (r: u64)
    ensures
        r == capped_product(a, b),
{
    match a.checked_mul(b) {
        Some(r) => r,
        None => u64::MAX,
    }
}

/// Whether a file of `required` bytes is within the limit.
pub open spec fn within(maximum: Option<u64>, required: u64) -> Result<(), Error> {
    match maximum {
        Some(maximum) => if required > maximum {
            Err(Error::CapacityExceeded { required, maximum })
        } else {
            Ok(())
        },
        None => Ok(()),
    }
}

/// Checks a file's size against the limit.
pub fn check_capacity(maximum: Option<u64>, required: u64) -> (r: Result<(), Error>)
    ensures
        r == within(maximum, required),
{
    match maximum {
        Some(maximum) => if required > maximum {
            Err(Error::CapacityExceeded { required, maximum })
        } else {
            Ok(())
        },
        None => Ok(()),
    }
}

/// How many bytes a memory page of this machine has.
///
/// This is `page_size::get`, which asks the operating system; nothing is
/// claimed of the number.
#[verifier::external_body]
fn machine_page_size() -> (r: usize) {
    page_size::get()
}

/// The page size of a new database on a machine whose memory pages have `size`
/// bytes.
pub fn page_size_from(size: u64) -> (r: Option<u64>)
    ensures
        r == (if size < MIN_PAGE_SIZE {
            None
        } else {
            Some(size)
        }),
{
    if size < MIN_PAGE_SIZE {
        None
    } else {
        Some(size)
    }
}

/// The page size of a new database for which none was given: the machine's,
/// as `page_size_from` takes it.
pub fn default_page_size() -> (r: Option<u64>)
    ensures
        r is Some ==> r->Some_0 >= MIN_PAGE_SIZE,
{
    page_size_from(machine_page_size() as u64)
}

impl Default for OpenOptions {
    fn default() -> (r: Self)
        ensures
            r == plain_options(),
    {
        OpenOptions::new()
    }
}

/// The options of a plain `open`.
pub open spec fn plain_options() -> OpenOptions {
    OpenOptions {
        pagesize: None,
        num_pages: DEFAULT_NUM_PAGES,
        max_file_bytes: None,
        growth_increment: MIN_ALLOC_SIZE,
        flags: DBFlags {
            strict_mode: false,
            mmap_populate: false,
            direct_writes: false,
            read_only: false,
            verify_on_open: false,
        },
    }
}

impl OpenOptions {
    /// The options of a plain `open`.
    pub fn new() -> (r: Self)
        ensures
            r == plain_options(),
    {
        OpenOptions {
            pagesize: None,
            num_pages: DEFAULT_NUM_PAGES,
            max_file_bytes: None,
            growth_increment: MIN_ALLOC_SIZE,
            flags: DBFlags {
                strict_mode: false,
                mmap_populate: false,
                direct_writes: false,
                read_only: false,
                verify_on_open: false,
            },
        }
    }

    /// Sets the page size.
    pub fn pagesize(self, pagesize: u64) -> (r: Self)
        requires
            pagesize >= MIN_PAGE_SIZE,
        ensures
            r == (OpenOptions { pagesize: Some(pagesize), ..self }),
    {
        OpenOptions { pagesize: Some(pagesize), ..self }
    }

    /// Sets the size that the file may not grow beyond.
    pub fn max_file_bytes(self, bytes: u64) -> (r: Self)
        requires
            bytes >= 4096,
        ensures
            r == (OpenOptions { max_file_bytes: Some(bytes), ..self }),
    {
        OpenOptions { max_file_bytes: Some(bytes), ..self }
    }

    /// Sets the number of bytes that the file grows by.
    pub fn growth_increment(self, bytes: u64) -> (r: Self)
        requires
            bytes > 0,
        ensures
            r == (OpenOptions { growth_increment: bytes, ..self }),
    {
        OpenOptions { growth_increment: bytes, ..self }
    }

    /// Sets the number of pages that a new file has.
    pub fn num_pages(self, num_pages: usize) -> (r: Self)
        requires
            num_pages >= 4,
        ensures
            r == (OpenOptions { num_pages, ..self }),
    {
        OpenOptions { num_pages, ..self }
    }

    /// Has every commit check the whole file before it is published.
    pub fn strict_mode(self, strict_mode: bool) -> (r: Self)
        ensures
            r == (OpenOptions { flags: DBFlags { strict_mode, ..self.flags }, ..self }),
    {
        OpenOptions { flags: DBFlags { strict_mode, ..self.flags }, ..self }
    }

    /// Has the mapping populated at once.
    pub fn mmap_populate(self, mmap_populate: bool) -> (r: Self)
        ensures
            r == (OpenOptions { flags: DBFlags { mmap_populate, ..self.flags }, ..self }),
    {
        OpenOptions { flags: DBFlags { mmap_populate, ..self.flags }, ..self }
    }

    /// Has writes bypass the page cache.
    pub fn direct_writes(self, direct_writes: bool) -> (r: Self)
        ensures
            r == (OpenOptions { flags: DBFlags { direct_writes, ..self.flags }, ..self }),
    {
        OpenOptions { flags: DBFlags { direct_writes, ..self.flags }, ..self }
    }

    /// Opens for reading alone: the file is neither made, grown nor written.
    pub fn read_only(self) -> (r: Self)
        ensures
            r == (OpenOptions {
                flags: DBFlags { read_only: true, direct_writes: false, ..self.flags },
                ..self
            }),
    {
        OpenOptions {
            flags: DBFlags { read_only: true, direct_writes: false, ..self.flags },
            ..self
        }
    }

    /// Has the whole file checked once it is open.
    pub fn verify_on_open(self, verify: bool) -> (r: Self)
        ensures
            r == (OpenOptions { flags: DBFlags { verify_on_open: verify, ..self.flags }, ..self }),
    {
        OpenOptions { flags: DBFlags { verify_on_open: verify, ..self.flags }, ..self }
    }

    /// How a file is opened that exists and looks like `detected`.
    pub open spec fn existing_plan(self, detected: Result<FormatInfo, Error>) -> Result<
        OpenPlan,
        Error,
    > {
        match chosen_page_size(self.pagesize, detected) {
            Err(e) => Err(e),
            Ok(pagesize) => Ok(
                OpenPlan {
                    pagesize,
                    action: if self.flags.read_only {
                        FileAction::OpenReadOnly
                    } else {
                        FileAction::Open { direct_writes: self.flags.direct_writes }
                    },
                },
            ),
        }
    }

    /// How a file is opened that does not exist, where `fallback` is the page
    /// size for want of an explicit one.
    pub open spec fn new_plan(self, fallback: u64) -> Result<OpenPlan, Error> {
        let pagesize = match self.pagesize {
            Some(size) => size,
            None => fallback,
        };
        let bytes = capped_product(pagesize, self.num_pages as u64);
        match within(self.max_file_bytes, bytes) {
            Err(e) => Err(e),
            Ok(_) => Ok(
                OpenPlan {
                    pagesize,
                    action: if self.flags.read_only {
                        FileAction::OpenReadOnly
                    } else {
                        FileAction::Create { bytes, direct_writes: self.flags.direct_writes }
                    },
                },
            ),
        }
    }

    /// How a file is opened that does not exist, where no page size was given and
    /// the machine's memory pages have `machine` bytes.
    pub open spec fn default_plan(self, machine: u64) -> Result<OpenPlan, Error> {
        if machine < MIN_PAGE_SIZE {
            Err(Error::InvalidDB(Fault::Text("Pagesize must be 1024 bytes minimum")))
        } else {
            self.new_plan(machine)
        }
    }

    /// Whether an explicit page size contradicts the one that the file was made
    /// with.
    pub fn conflicts(&self, detected: &Option<Result<FormatInfo, Error>>) -> (r: bool)
        ensures
            r == (*detected matches Some(found) && page_sizes_conflict(self.pagesize, found)),
    {
        match (self.pagesize, detected) {
            (Some(size), Some(Ok(info))) => size != info.page_size,
            _ => false,
        }
    }

    /// Decides how to open a file that exists. It cannot be opened with another
    /// page size than the one it was made with.
    pub fn plan_existing(&self, detected: Result<FormatInfo, Error>) -> (r: Result<OpenPlan, Error>)
        requires
            !page_sizes_conflict(self.pagesize, detected),
        ensures
            r == self.existing_plan(detected),
    {
        let pagesize: u64 = match (self.pagesize, detected) {
            (_, Ok(info)) => info.page_size,
            (Some(size), Err(_)) => size,
            (None, Err(e)) => return Err(e),
        };
        let action: FileAction = if self.flags.read_only {
            FileAction::OpenReadOnly
        } else {
            FileAction::Open { direct_writes: self.flags.direct_writes }
        };
        Ok(OpenPlan { pagesize, action })
    }

    /// Decides how to open a file that does not exist.
    pub fn plan_new(&self, fallback: u64) -> (r: Result<OpenPlan, Error>)
        ensures
            r == self.new_plan(fallback),
    {
        let pagesize: u64 = match self.pagesize {
            Some(size) => size,
            None => fallback,
        };
        let bytes: u64 = times(pagesize, self.num_pages as u64);
        match check_capacity(self.max_file_bytes, bytes) {
            Ok(_) => {},
            Err(e) => return Err(e),
        }
        let action: FileAction = if self.flags.read_only {
            FileAction::OpenReadOnly
        } else {
            FileAction::Create { bytes, direct_writes: self.flags.direct_writes }
        };
        Ok(OpenPlan { pagesize, action })
    }

    /// Decides how to open a file that does not exist and for which no page size
    /// was given, on a machine whose memory pages have `machine` bytes.
    pub fn plan_default(&self, machine: u64) -> (r: Result<OpenPlan, Error>)
        requires
            self.pagesize is None,
        ensures
            r == self.default_plan(machine),
    {
        match page_size_from(machine) {
            Some(size) => self.plan_new(size),
            None => Err(Error::InvalidDB(Fault::Text("Pagesize must be 1024 bytes minimum"))),
        }
    }

    /// Decides how to open a file: `detected` is what was found in it, if it
    /// exists.
    ///
    /// A new file without an explicit page size gets the machine's, as far as
    /// that is no smaller than the smallest page size.
    pub fn plan(&self, detected: Option<Result<FormatInfo, Error>>) -> (r: Result<OpenPlan, Error>)
        requires
            detected matches Some(found) ==> !page_sizes_conflict(self.pagesize, found),
        ensures
            match detected {
                Some(detected) => r == self.existing_plan(detected),
                None => match self.pagesize {
                    Some(size) => r == self.new_plan(size),
                    None => exists|machine: u64| r == #[trigger] self.default_plan(machine),
                },
            },
    {
        match detected {
            Some(detected) => self.plan_existing(detected),
            None => match self.pagesize {
                Some(size) => self.plan_new(size),
                None => self.plan_default(machine_page_size() as u64),
            },
        }
    }
}

/// A handle opened for reading alone never makes or writes a file, whatever
/// else was asked for.
pub proof fn law_read_only_never_writes(
    options: OpenOptions,
    detected: Result<FormatInfo, Error>,
    fallback: u64,
)
    requires
        options.flags.read_only,
    ensures
        options.existing_plan(detected) is Ok ==> options.existing_plan(detected)->Ok_0.action
            == FileAction::OpenReadOnly,
        options.new_plan(fallback) is Ok ==> options.new_plan(fallback)->Ok_0.action
            == FileAction::OpenReadOnly,
{
}

/// A new file is never larger than the limit.
pub proof fn law_new_file_within_limit(options: OpenOptions, fallback: u64)
    ensures
        match (options.max_file_bytes, options.new_plan(fallback)) {
            (Some(maximum), Ok(plan)) => match plan.action {
                FileAction::Create { bytes, .. } => bytes <= maximum,
                _ => true,
            },
            _ => true,
        },
{
}

} // verus!
