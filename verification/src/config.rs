//! The settings of the generator and their check.
use vstd::prelude::*;
use crate::text::{trim, trimmed};

verus! {

/// The largest number of certificates in one table row.
pub const MAX_COLUMNS: usize = 3;

/// The width, in pixels, of one certificate column.
pub const CERTIFICATE_COLUMN_WIDTH: usize = 250;

/// The directory that holds the certificates.
pub const CERTIFICATES_DIRECTORY: &'static str = "certificates";

/// The English README file.
pub const README_EN_PATH: &'static str = "README.md";

/// The Russian README file.
pub const README_RU_PATH: &'static str = "README_RU.md";

/// The repository that the README links point into.
pub const REPOSITORY_URL: &'static str = "https://github.com/TheAndreyZakharov/Certificates";

/// The width at which images are shown: the column width.
pub fn configured_image_width() -> (r: usize)
    ensures
        r == CERTIFICATE_COLUMN_WIDTH,
{
    CERTIFICATE_COLUMN_WIDTH
}

/// A setting that makes no sense.
#[derive(Clone, Copy, Debug, PartialEq, Eq, Structural)]
pub enum ConfigError {
    /// A table row would hold no certificate.
    NoColumns,
    /// Images would have no width.
    NoImageWidth,
    /// The repository URL is blank.
    BlankRepositoryUrl,
}

/// Checks the settings: the first of the problems found, in this order,
/// is the error.
pub fn validate_configuration() -> (r: Result<(), ConfigError>)
    ensures
        r == (if MAX_COLUMNS == 0 {
            Err(ConfigError::NoColumns)
        } else if CERTIFICATE_COLUMN_WIDTH == 0 {
            Err(ConfigError::NoImageWidth)
        } else if trimmed(REPOSITORY_URL@).len() == 0 {
            Err(ConfigError::BlankRepositoryUrl)
        } else {
            Ok(())
        }),
        r is Ok,
{
    if MAX_COLUMNS == 0 {
        return Err(ConfigError::NoColumns);
    }
    if configured_image_width() == 0 {
        return Err(ConfigError::NoImageWidth);
    }
    let url = trim(REPOSITORY_URL);
    proof {
        reveal_strlit("https://github.com/TheAndreyZakharov/Certificates");
        let s = REPOSITORY_URL@;
        assert(s[0] == 'h');
        assert(crate::text::trim_start(s) == s);
        assert(s.last() == 's');
        assert(crate::text::trim_end(s) == s);
    }
    if url.as_str().is_empty() {
        return Err(ConfigError::BlankRepositoryUrl);
    }
    Ok(())
}

} // verus!
