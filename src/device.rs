//! The catalog of supported devices and their row geometry.
use vstd::prelude::*;

verus! {

/// JTAG identifier of the MPA1016.
pub const MPA1016_JTAG_ID: u32 = 0x1390E01D;

/// JTAG identifier of the MPA1036.
pub const MPA1036_JTAG_ID: u32 = 0x1391E01D;

/// JTAG identifier of the MPA1064.
pub const MPA1064_JTAG_ID: u32 = 0x1393401D;

/// JTAG identifier of the MPA1100.
pub const MPA1100_JTAG_ID: u32 = 0x1392001D;

/// A supported device.
#[derive(Clone, Copy, Debug, PartialEq, Eq, Structural)]
pub enum Device {
    Mpa1016,
    Mpa1036,
    Mpa1064,
    Mpa1100,
}

impl Device {
    /// The JTAG identifier that a stream for this device carries.
    pub open spec fn jtag_id(self) -> u32 {
        match self {
            Device::Mpa1016 => MPA1016_JTAG_ID,
            Device::Mpa1036 => MPA1036_JTAG_ID,
            Device::Mpa1064 => MPA1064_JTAG_ID,
            Device::Mpa1100 => MPA1100_JTAG_ID,
        }
    }

    /// The device whose identifier is `idcode`, if any.
    pub open spec fn from_jtag_spec(idcode: u32) -> Option<Device> {
        if idcode == MPA1016_JTAG_ID {
            Some(Device::Mpa1016)
        } else if idcode == MPA1036_JTAG_ID {
            Some(Device::Mpa1036)
        } else if idcode == MPA1064_JTAG_ID {
            Some(Device::Mpa1064)
        } else if idcode == MPA1100_JTAG_ID {
            Some(Device::Mpa1100)
        } else {
            None
        }
    }

    /// Number of configuration rows.
    pub open spec fn spec_rows(self) -> nat {
        match self {
            Device::Mpa1016 => 95,
            Device::Mpa1036 => 139,
            Device::Mpa1064 => 183,
            Device::Mpa1100 => 227,
        }
    }

    /// Width of a row in bytes, its check byte included: the documented row
    /// width in bits divided by eight.
    pub open spec fn spec_bytes_per_row(self) -> nat {
        match self {
            Device::Mpa1016 => 576nat / 8,
            Device::Mpa1036 => 840nat / 8,
            Device::Mpa1064 => 1104nat / 8,
            Device::Mpa1100 => 1360nat / 8,
        }
    }

    /// Exact-match lookup of a JTAG identifier.
    pub fn try_from_jtag(idcode: u32) -> (r: Option<Self>)
        ensures
            r == Self::from_jtag_spec(idcode),
            r matches Some(d) ==> d.jtag_id() == idcode,
            r is None <==> forall|d: Device| d.jtag_id() != idcode,
    {
        proof {
            if let Some(d) = Self::from_jtag_spec(idcode) {
                assert(d.jtag_id() == idcode);
            } else {
                assert forall|d: Device| d.jtag_id() != idcode by {
                    match d {
                        Device::Mpa1016 => {},
                        Device::Mpa1036 => {},
                        Device::Mpa1064 => {},
                        Device::Mpa1100 => {},
                    }
                }
            }
        }
        if idcode == MPA1016_JTAG_ID {
            Some(Device::Mpa1016)
        } else if idcode == MPA1036_JTAG_ID {
            Some(Device::Mpa1036)
        } else if idcode == MPA1064_JTAG_ID {
            Some(Device::Mpa1064)
        } else if idcode == MPA1100_JTAG_ID {
            Some(Device::Mpa1100)
        } else {
            None
        }
    }

    /// Number of configuration rows.
    pub fn rows(self) -> (r: usize)
        ensures
            r == self.spec_rows(),
    {
        match self {
            Device::Mpa1016 => 95,
            Device::Mpa1036 => 139,
            Device::Mpa1064 => 183,
            Device::Mpa1100 => 227,
        }
    }

    /// Width of a row in bytes, its check byte included.
    pub fn bytes_per_row(self) -> (r: usize)
        ensures
            r == self.spec_bytes_per_row(),
    {
        match self {
            Device::Mpa1016 => 576usize / 8,
            Device::Mpa1036 => 840usize / 8,
            Device::Mpa1064 => 1104usize / 8,
            Device::Mpa1100 => 1360usize / 8,
        }
    }
}

/// Every device's identifier leads back to it, and its geometry is bounded:
/// every row holds a check byte and at least one payload byte.
pub proof fn lemma_device_catalog(d: Device)
    ensures
        Device::from_jtag_spec(d.jtag_id()) == Some(d),
        2 <= d.spec_bytes_per_row() <= 170,
        1 <= d.spec_rows() <= 227,
{
}

} // verus!
