use vstd::prelude::*;

verus! {

/// Strength tier of a ratchet: the number of entropy banks that an operation
/// at this tier cascades through is `value() + 1`.
#[derive(Clone, Copy, Debug, PartialEq, Eq, Structural)]
pub enum SecurityLevel {
    Standard,
    Reinforced,
    High,
    Ultra,
    Extreme,
    Custom(u8),
}

impl SecurityLevel {
    /// The ordinal of the tier.
    pub open spec fn spec_value(self) -> u8 {
        match self {
            SecurityLevel::Standard => 0,
            SecurityLevel::Reinforced => 1,
            SecurityLevel::High => 2,
            SecurityLevel::Ultra => 3,
            SecurityLevel::Extreme => 4,
            SecurityLevel::Custom(n) => n,
        }
    }

    /// Number of entropy banks that this tier uses.
    pub open spec fn bank_count(self) -> nat {
        self.spec_value() as nat + 1
    }

    #[verifier::when_used_as_spec(spec_value)]
    pub fn value(self) -> (r: u8)
        ensures
            r == self.spec_value(),
    {
        match self {
            SecurityLevel::Standard => 0,
            SecurityLevel::Reinforced => 1,
            SecurityLevel::High => 2,
            SecurityLevel::Ultra => 3,
            SecurityLevel::Extreme => 4,
            SecurityLevel::Custom(n) => n,
        }
    }

    /// The tier whose ordinal is `n`: the named tiers for 0 to 4, a custom
    /// tier above.
    pub open spec fn spec_for_value(n: u8) -> SecurityLevel {
        if n == 0 {
            SecurityLevel::Standard
        } else if n == 1 {
            SecurityLevel::Reinforced
        } else if n == 2 {
            SecurityLevel::High
        } else if n == 3 {
            SecurityLevel::Ultra
        } else if n == 4 {
            SecurityLevel::Extreme
        } else {
            SecurityLevel::Custom(n)
        }
    }

    pub fn for_value(n: u8) -> (r: SecurityLevel)
        ensures
            r == Self::spec_for_value(n),
            r.spec_value() == n,
    {
        match n {
            0 => SecurityLevel::Standard,
            1 => SecurityLevel::Reinforced,
            2 => SecurityLevel::High,
            3 => SecurityLevel::Ultra,
            4 => SecurityLevel::Extreme,
            _ => SecurityLevel::Custom(n),
        }
    }

    /// The tier used where none is requested.
    pub fn default_level() -> (r: SecurityLevel)
        ensures
            r == SecurityLevel::Standard,
    {
        SecurityLevel::Standard
    }

    /// The requested tier, or the default tier where none is given.
    pub open spec fn spec_or_default(level: Option<SecurityLevel>) -> SecurityLevel {
        match level {
            Some(l) => l,
            None => SecurityLevel::Standard,
        }
    }

    pub fn or_default(level: Option<SecurityLevel>) -> (r: SecurityLevel)
        ensures
            r == Self::spec_or_default(level),
    {
        match level {
            Some(l) => l,
            None => SecurityLevel::Standard,
        }
    }
}

impl From<u8> for SecurityLevel {
    fn from(n: u8) -> (r: SecurityLevel) {
        SecurityLevel::for_value(n)
    }
}

impl vstd::std_specs::convert::FromSpecImpl<u8> for SecurityLevel {
    open spec fn obeys_from_spec() -> bool {
        true
    }

    open spec fn from_spec(n: u8) -> SecurityLevel {
        SecurityLevel::spec_for_value(n)
    }
}

} // verus!
