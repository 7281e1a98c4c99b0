//! Validation of a run's settings.

use crate::types::AppConfig;
use vstd::prelude::*;

verus! {

/// A setting that cannot be run with.
#[derive(Debug, Clone, Copy, PartialEq, Eq)]
pub enum ConfigError {
    EmptyFastaPath,
    EmptyVcfPath,
    ZeroLineLength,
    RegionOutOfRange,
}

/// The verdict on the settings that do not depend on the reference: both
/// paths non-empty and a line length of at least one.
pub open spec fn settings_verdict(c: AppConfig) -> Result<(), ConfigError> {
    if c.fasta@.len() == 0 {
        Err(ConfigError::EmptyFastaPath)
    } else if c.vcf@.len() == 0 {
        Err(ConfigError::EmptyVcfPath)
    } else if c.output_line_length == 0 {
        Err(ConfigError::ZeroLineLength)
    } else {
        Ok(())
    }
}

/// The region lies on a reference of `num_bases` bases:
/// `start <= end <= num_bases`, or `start <= num_bases` without an end.
pub open spec fn region_fits(c: AppConfig, num_bases: nat) -> bool {
    match c.region_end {
        Some(end) => c.region_start <= end && end <= num_bases,
        None => c.region_start <= num_bases,
    }
}

impl AppConfig {
    /// Checks the settings that do not depend on the reference.
    pub fn validate(&self) -> (r: Result<(), ConfigError>)
        ensures
            r == settings_verdict(*self),
    {
        if self.fasta.as_str().is_empty() {
            Err(ConfigError::EmptyFastaPath)
        } else if self.vcf.as_str().is_empty() {
            Err(ConfigError::EmptyVcfPath)
        } else if self.output_line_length == 0 {
            Err(ConfigError::ZeroLineLength)
        } else {
            Ok(())
        }
    }

    /// Checks the region against the length of the reference.
    pub fn check_region(&self, num_bases: usize) -> (r: Result<(), ConfigError>)
        ensures
            r is Ok <==> region_fits(*self, num_bases as nat),
            r is Err ==> r == Err::<(), ConfigError>(ConfigError::RegionOutOfRange),
    {
        let fits = match self.region_end {
            Some(end) => self.region_start <= end && end <= num_bases,
            None => self.region_start <= num_bases,
        };
        if fits {
            Ok(())
        } else {
            Err(ConfigError::RegionOutOfRange)
        }
    }
}

} // verus!
