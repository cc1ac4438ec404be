//! HCI status codes.
//!
//! The closed set of status values defined by the Core Specification,
//! one byte each on the wire. Unknown values fail to decode.

use vstd::prelude::*;

use crate::reader::{Read, Reader};
use crate::writer::{Write, Writer};

verus! {

/// Status and error codes carried in HCI events.
#[derive(Debug, Clone, Copy, PartialEq, Eq, Structural)]
pub enum Status {
    Success,
    UnknownHciCommand,
    UnknownConnectionIdentifier,
    HardwareFailure,
    PageTimeout,
    AuthenticationFailure,
    PinorKeyMissing,
    MemoryCapacityExceeded,
    ConnectionTimeout,
    ConnectionLimitExceeded,
    SynchronousConnectionLimitExceeded,
    ConnectionAlreadyExists,
    CommandDisallowed,
    ConnectionRejectedLimitedResources,
    ConnectionRejectedSecurityReasons,
    ConnectionRejectedUnacceptableBdAddr,
    ConnectionAcceptTimeoutExceeded,
    UnsupportedFeatureOrParameterValue,
    InvalidHciCommandParameters,
    RemoteUserTerminatedConnection,
    RemoteDeviceTerminatedConnectionLowResources,
    RemoteDeviceTerminatedConnectionPowerOff,
    ConnectionTerminatedByLocalHost,
    RepeatedAttempts,
    PairingNotAllowed,
    UnknownLmpPdu,
    UnsupportedRemoteFeature,
    ScoOffsetRejected,
    ScoIntervalRejected,
    ScoAirModeRejected,
    InvalidLmpParameters,
    UnspecifiedError,
    UnsupportedLmpParameterValue,
    RoleChangeNotAllowed,
    LmpResponseTimeout,
    LmpErrorTransactionCollision,
    LmpPduNotAllowed,
    EncryptionModeNotAcceptable,
    LinkKeyCannotBeChanged,
    RequestedQosNotSupported,
    InstantPassed,
    PairingWithUnitKeyNotSupported,
    DifferentTransactionCollision,
    ReservedForUse2B,
    QosUnacceptableParameter,
    QosRejected,
    ChannelClassificationNotSupported,
    InsufficientSecurity,
    ParameterOutOfMandatoryRange,
    ReservedForUse31,
    RoleSwitchPending,
    ReservedForUse33,
    ReservedSlotViolation,
    RoleSwitchFailed,
    ExtendedInquiryResponseTooLarge,
    SecureSimplePairingNotSupportedByHost,
    HostBusy,
    ConnectionRejectedNoSuitableChannelFound,
    ControllerBusy,
    UnacceptableConnectionParameters,
    AdvertisingTimeout,
    ConnectionTerminatedMicFailure,
    ConnectionFailedEstablished,
    PreviouslyUsed3F,
    CoarseClockAdjustmentRejected,
    Type0SubmapNotDefined,
    UnknownAdvertisingIdentifier,
    LimitReached,
    OperationCancelledByHost,
    PacketTooLong,
    TooLate,
    TooEarly,
}

/// The one-byte wire code of a status value.
pub open spec fn status_code(s: Status) -> u8 {
    match s {
        Status::Success => 0x00,
        Status::UnknownHciCommand => 0x01,
        Status::UnknownConnectionIdentifier => 0x02,
        Status::HardwareFailure => 0x03,
        Status::PageTimeout => 0x04,
        Status::AuthenticationFailure => 0x05,
        Status::PinorKeyMissing => 0x06,
        Status::MemoryCapacityExceeded => 0x07,
        Status::ConnectionTimeout => 0x08,
        Status::ConnectionLimitExceeded => 0x09,
        Status::SynchronousConnectionLimitExceeded => 0x0A,
        Status::ConnectionAlreadyExists => 0x0B,
        Status::CommandDisallowed => 0x0C,
        Status::ConnectionRejectedLimitedResources => 0x0D,
        Status::ConnectionRejectedSecurityReasons => 0x0E,
        Status::ConnectionRejectedUnacceptableBdAddr => 0x0F,
        Status::ConnectionAcceptTimeoutExceeded => 0x10,
        Status::UnsupportedFeatureOrParameterValue => 0x11,
        Status::InvalidHciCommandParameters => 0x12,
        Status::RemoteUserTerminatedConnection => 0x13,
        Status::RemoteDeviceTerminatedConnectionLowResources => 0x14,
        Status::RemoteDeviceTerminatedConnectionPowerOff => 0x15,
        Status::ConnectionTerminatedByLocalHost => 0x16,
        Status::RepeatedAttempts => 0x17,
        Status::PairingNotAllowed => 0x18,
        Status::UnknownLmpPdu => 0x19,
        Status::UnsupportedRemoteFeature => 0x1A,
        Status::ScoOffsetRejected => 0x1B,
        Status::ScoIntervalRejected => 0x1C,
        Status::ScoAirModeRejected => 0x1D,
        Status::InvalidLmpParameters => 0x1E,
        Status::UnspecifiedError => 0x1F,
        Status::UnsupportedLmpParameterValue => 0x20,
        Status::RoleChangeNotAllowed => 0x21,
        Status::LmpResponseTimeout => 0x22,
        Status::LmpErrorTransactionCollision => 0x23,
        Status::LmpPduNotAllowed => 0x24,
        Status::EncryptionModeNotAcceptable => 0x25,
        Status::LinkKeyCannotBeChanged => 0x26,
        Status::RequestedQosNotSupported => 0x27,
        Status::InstantPassed => 0x28,
        Status::PairingWithUnitKeyNotSupported => 0x29,
        Status::DifferentTransactionCollision => 0x2A,
        Status::ReservedForUse2B => 0x2B,
        Status::QosUnacceptableParameter => 0x2C,
        Status::QosRejected => 0x2D,
        Status::ChannelClassificationNotSupported => 0x2E,
        Status::InsufficientSecurity => 0x2F,
        Status::ParameterOutOfMandatoryRange => 0x30,
        Status::ReservedForUse31 => 0x31,
        Status::RoleSwitchPending => 0x32,
        Status::ReservedForUse33 => 0x33,
        Status::ReservedSlotViolation => 0x34,
        Status::RoleSwitchFailed => 0x35,
        Status::ExtendedInquiryResponseTooLarge => 0x36,
        Status::SecureSimplePairingNotSupportedByHost => 0x37,
        Status::HostBusy => 0x38,
        Status::ConnectionRejectedNoSuitableChannelFound => 0x39,
        Status::ControllerBusy => 0x3A,
        Status::UnacceptableConnectionParameters => 0x3B,
        Status::AdvertisingTimeout => 0x3C,
        Status::ConnectionTerminatedMicFailure => 0x3D,
        Status::ConnectionFailedEstablished => 0x3E,
        Status::PreviouslyUsed3F => 0x3F,
        Status::CoarseClockAdjustmentRejected => 0x40,
        Status::Type0SubmapNotDefined => 0x41,
        Status::UnknownAdvertisingIdentifier => 0x42,
        Status::LimitReached => 0x43,
        Status::OperationCancelledByHost => 0x44,
        Status::PacketTooLong => 0x45,
        Status::TooLate => 0x46,
        Status::TooEarly => 0x47,
    }
}

impl Status {
    /// The wire code of this status.
    pub fn code(&self) -> (r: u8)
        ensures
            r == status_code(*self),
    {
        match *self {
            Status::Success => 0x00,
            Status::UnknownHciCommand => 0x01,
            Status::UnknownConnectionIdentifier => 0x02,
            Status::HardwareFailure => 0x03,
            Status::PageTimeout => 0x04,
            Status::AuthenticationFailure => 0x05,
            Status::PinorKeyMissing => 0x06,
            Status::MemoryCapacityExceeded => 0x07,
            Status::ConnectionTimeout => 0x08,
            Status::ConnectionLimitExceeded => 0x09,
            Status::SynchronousConnectionLimitExceeded => 0x0A,
            Status::ConnectionAlreadyExists => 0x0B,
            Status::CommandDisallowed => 0x0C,
            Status::ConnectionRejectedLimitedResources => 0x0D,
            Status::ConnectionRejectedSecurityReasons => 0x0E,
            Status::ConnectionRejectedUnacceptableBdAddr => 0x0F,
            Status::ConnectionAcceptTimeoutExceeded => 0x10,
            Status::UnsupportedFeatureOrParameterValue => 0x11,
            Status::InvalidHciCommandParameters => 0x12,
            Status::RemoteUserTerminatedConnection => 0x13,
            Status::RemoteDeviceTerminatedConnectionLowResources => 0x14,
            Status::RemoteDeviceTerminatedConnectionPowerOff => 0x15,
            Status::ConnectionTerminatedByLocalHost => 0x16,
            Status::RepeatedAttempts => 0x17,
            Status::PairingNotAllowed => 0x18,
            Status::UnknownLmpPdu => 0x19,
            Status::UnsupportedRemoteFeature => 0x1A,
            Status::ScoOffsetRejected => 0x1B,
            Status::ScoIntervalRejected => 0x1C,
            Status::ScoAirModeRejected => 0x1D,
            Status::InvalidLmpParameters => 0x1E,
            Status::UnspecifiedError => 0x1F,
            Status::UnsupportedLmpParameterValue => 0x20,
            Status::RoleChangeNotAllowed => 0x21,
            Status::LmpResponseTimeout => 0x22,
            Status::LmpErrorTransactionCollision => 0x23,
            Status::LmpPduNotAllowed => 0x24,
            Status::EncryptionModeNotAcceptable => 0x25,
            Status::LinkKeyCannotBeChanged => 0x26,
            Status::RequestedQosNotSupported => 0x27,
            Status::InstantPassed => 0x28,
            Status::PairingWithUnitKeyNotSupported => 0x29,
            Status::DifferentTransactionCollision => 0x2A,
            Status::ReservedForUse2B => 0x2B,
            Status::QosUnacceptableParameter => 0x2C,
            Status::QosRejected => 0x2D,
            Status::ChannelClassificationNotSupported => 0x2E,
            Status::InsufficientSecurity => 0x2F,
            Status::ParameterOutOfMandatoryRange => 0x30,
            Status::ReservedForUse31 => 0x31,
            Status::RoleSwitchPending => 0x32,
            Status::ReservedForUse33 => 0x33,
            Status::ReservedSlotViolation => 0x34,
            Status::RoleSwitchFailed => 0x35,
            Status::ExtendedInquiryResponseTooLarge => 0x36,
            Status::SecureSimplePairingNotSupportedByHost => 0x37,
            Status::HostBusy => 0x38,
            Status::ConnectionRejectedNoSuitableChannelFound => 0x39,
            Status::ControllerBusy => 0x3A,
            Status::UnacceptableConnectionParameters => 0x3B,
            Status::AdvertisingTimeout => 0x3C,
            Status::ConnectionTerminatedMicFailure => 0x3D,
            Status::ConnectionFailedEstablished => 0x3E,
            Status::PreviouslyUsed3F => 0x3F,
            Status::CoarseClockAdjustmentRejected => 0x40,
            Status::Type0SubmapNotDefined => 0x41,
            Status::UnknownAdvertisingIdentifier => 0x42,
            Status::LimitReached => 0x43,
            Status::OperationCancelledByHost => 0x44,
            Status::PacketTooLong => 0x45,
            Status::TooLate => 0x46,
            Status::TooEarly => 0x47,
        }
    }

    /// Decode a status byte. Exactly the codes up to 0x47 are recognized.
    pub fn from_code(v: u8) -> (res: Option<Status>)
        ensures
            match res {
                Some(s) => status_code(s) == v,
                None => v > 0x47,
            },
    {
        match v {
            0x00 => Some(Status::Success),
            0x01 => Some(Status::UnknownHciCommand),
            0x02 => Some(Status::UnknownConnectionIdentifier),
            0x03 => Some(Status::HardwareFailure),
            0x04 => Some(Status::PageTimeout),
            0x05 => Some(Status::AuthenticationFailure),
            0x06 => Some(Status::PinorKeyMissing),
            0x07 => Some(Status::MemoryCapacityExceeded),
            0x08 => Some(Status::ConnectionTimeout),
            0x09 => Some(Status::ConnectionLimitExceeded),
            0x0A => Some(Status::SynchronousConnectionLimitExceeded),
            0x0B => Some(Status::ConnectionAlreadyExists),
            0x0C => Some(Status::CommandDisallowed),
            0x0D => Some(Status::ConnectionRejectedLimitedResources),
            0x0E => Some(Status::ConnectionRejectedSecurityReasons),
            0x0F => Some(Status::ConnectionRejectedUnacceptableBdAddr),
            0x10 => Some(Status::ConnectionAcceptTimeoutExceeded),
            0x11 => Some(Status::UnsupportedFeatureOrParameterValue),
            0x12 => Some(Status::InvalidHciCommandParameters),
            0x13 => Some(Status::RemoteUserTerminatedConnection),
            0x14 => Some(Status::RemoteDeviceTerminatedConnectionLowResources),
            0x15 => Some(Status::RemoteDeviceTerminatedConnectionPowerOff),
            0x16 => Some(Status::ConnectionTerminatedByLocalHost),
            0x17 => Some(Status::RepeatedAttempts),
            0x18 => Some(Status::PairingNotAllowed),
            0x19 => Some(Status::UnknownLmpPdu),
            0x1A => Some(Status::UnsupportedRemoteFeature),
            0x1B => Some(Status::ScoOffsetRejected),
            0x1C => Some(Status::ScoIntervalRejected),
            0x1D => Some(Status::ScoAirModeRejected),
            0x1E => Some(Status::InvalidLmpParameters),
            0x1F => Some(Status::UnspecifiedError),
            0x20 => Some(Status::UnsupportedLmpParameterValue),
            0x21 => Some(Status::RoleChangeNotAllowed),
            0x22 => Some(Status::LmpResponseTimeout),
            0x23 => Some(Status::LmpErrorTransactionCollision),
            0x24 => Some(Status::LmpPduNotAllowed),
            0x25 => Some(Status::EncryptionModeNotAcceptable),
            0x26 => Some(Status::LinkKeyCannotBeChanged),
            0x27 => Some(Status::RequestedQosNotSupported),
            0x28 => Some(Status::InstantPassed),
            0x29 => Some(Status::PairingWithUnitKeyNotSupported),
            0x2A => Some(Status::DifferentTransactionCollision),
            0x2B => Some(Status::ReservedForUse2B),
            0x2C => Some(Status::QosUnacceptableParameter),
            0x2D => Some(Status::QosRejected),
            0x2E => Some(Status::ChannelClassificationNotSupported),
            0x2F => Some(Status::InsufficientSecurity),
            0x30 => Some(Status::ParameterOutOfMandatoryRange),
            0x31 => Some(Status::ReservedForUse31),
            0x32 => Some(Status::RoleSwitchPending),
            0x33 => Some(Status::ReservedForUse33),
            0x34 => Some(Status::ReservedSlotViolation),
            0x35 => Some(Status::RoleSwitchFailed),
            0x36 => Some(Status::ExtendedInquiryResponseTooLarge),
            0x37 => Some(Status::SecureSimplePairingNotSupportedByHost),
            0x38 => Some(Status::HostBusy),
            0x39 => Some(Status::ConnectionRejectedNoSuitableChannelFound),
            0x3A => Some(Status::ControllerBusy),
            0x3B => Some(Status::UnacceptableConnectionParameters),
            0x3C => Some(Status::AdvertisingTimeout),
            0x3D => Some(Status::ConnectionTerminatedMicFailure),
            0x3E => Some(Status::ConnectionFailedEstablished),
            0x3F => Some(Status::PreviouslyUsed3F),
            0x40 => Some(Status::CoarseClockAdjustmentRejected),
            0x41 => Some(Status::Type0SubmapNotDefined),
            0x42 => Some(Status::UnknownAdvertisingIdentifier),
            0x43 => Some(Status::LimitReached),
            0x44 => Some(Status::OperationCancelledByHost),
            0x45 => Some(Status::PacketTooLong),
            0x46 => Some(Status::TooLate),
            0x47 => Some(Status::TooEarly),
            _ => None,
        }
    }
}

impl Write for Status {
    open spec fn wf(&self) -> bool {
        true
    }

    open spec fn wire_bytes(&self) -> Seq<u8> {
        seq![status_code(*self)]
    }

    fn write(&self, w: &mut Writer) {
        w.write_u8(self.code());
        assert(final(w)@ =~= old(w)@ + self.wire_bytes());
    }
}

impl Read for Status {
    fn read(r: &mut Reader) -> (res: Option<Self>) {
        let ghost p0 = r.position();
        let ghost bytes = r.bytes();
        let v = match r.read_u8() {
            Some(v) => v,
            None => {
                proof {
                    assert forall|v2: Status| v2.wf() implies !crate::reader::encodes_prefix(
                        bytes,
                        p0,
                        v2,
                    ) by {
                        if crate::reader::encodes_prefix(bytes, p0, v2) {
                            assert(v2.wire_bytes().len() == 1);
                        }
                    }
                }
                return None;
            },
        };
        let res = match Status::from_code(v) {
            Some(s) => s,
            None => {
                proof {
                    assert forall|v2: Status| v2.wf() implies !crate::reader::encodes_prefix(
                        bytes,
                        p0,
                        v2,
                    ) by {
                        if crate::reader::encodes_prefix(bytes, p0, v2) {
                            assert(v2.wire_bytes()[0] == bytes.subrange(p0, p0 + 1)[0]);
                            assert(status_code(v2) == v);
                            assert(status_code(v2) <= 0x47);
                        }
                    }
                }
                return None;
            },
        };
        proof {
            assert(res.wire_bytes() =~= bytes.subrange(p0, r.position()));
            assert forall|v2: Status|
                v2.wf() && crate::reader::encodes_prefix(bytes, p0, v2) implies v2.wire_bytes()
                == res.wire_bytes() by {
                assert(v2.wire_bytes() =~= bytes.subrange(p0, p0 + 1));
            }
        }
        Some(res)
    }
}

} // verus!
