//! Values exchanged with the vendor lighting SDK: LED identifiers, uploaded
//! colours, session states, device kinds and the SDK's status codes.
//!
//! The SDK speaks in unsigned 32-bit codes. Every enum that crosses the
//! boundary has a `code` giving the number the SDK uses for it, and the enums
//! that the SDK hands back have a conversion from that number.

use vstd::prelude::*;
use crate::number::Double;

verus! {

/// Highest layer priority the SDK accepts.
pub const CORSAIR_LAYER_PRIORITY_MAX: u32 = 255;

/// Opaque identifier of one LED within a device.
#[derive(Debug, Clone, Copy, PartialEq, Eq, Structural)]
pub struct CorsairLedLuid(pub u32);

/// Failure reported by the SDK itself.
#[derive(Debug, Clone, Copy, PartialEq, Eq, Structural)]
pub enum SysCorsairError {
    NotConnected,
    NoControl,
    IncompatibleProtocol,
    InvalidArguments,
    InvalidOperation,
    DeviceNotFound,
    NotAllowed,
    UnknownError,
}

/// Failure of an SDK call or of a conversion at the boundary.
#[derive(Debug, Clone, Copy, PartialEq, Eq, Structural)]
pub enum CorsairError {
    Sys(SysCorsairError),
    InvalidChar,
    MaxPriorityExceded,
    InvalidDataType,
    InvalidFlags,
    InvalidMacroKeyId,
}

/// Conversion of a raw status into a result.
pub trait IntoCE {
    /// Status as a result: success, or the failure it stands for.
    fn into_ce(self) -> Result<(), CorsairError>;
}

impl SysCorsairError {
    /// Meaning of a status code: `None` for success, else the failure.
    pub open spec fn of_status(value: u32) -> Option<SysCorsairError> {
        if value == 0 {
            None
        } else if value == 1 {
            Some(SysCorsairError::NotConnected)
        } else if value == 2 {
            Some(SysCorsairError::NoControl)
        } else if value == 3 {
            Some(SysCorsairError::IncompatibleProtocol)
        } else if value == 4 {
            Some(SysCorsairError::InvalidArguments)
        } else if value == 5 {
            Some(SysCorsairError::InvalidOperation)
        } else if value == 6 {
            Some(SysCorsairError::DeviceNotFound)
        } else if value == 7 {
            Some(SysCorsairError::NotAllowed)
        } else {
            Some(SysCorsairError::UnknownError)
        }
    }

    /// Reads a status code: zero is success, one to seven are the SDK's
    /// failures, anything else is an unknown failure.
    pub fn try_from(value: u32) -> (r: Result<(), SysCorsairError>)
        ensures
            r.is_ok() <==> value == 0,
            r matches Err(e) ==> Self::of_status(value) == Some(e),
    {
        match value {
            0 => Ok(()),
            1 => Err(SysCorsairError::NotConnected),
            2 => Err(SysCorsairError::NoControl),
            3 => Err(SysCorsairError::IncompatibleProtocol),
            4 => Err(SysCorsairError::InvalidArguments),
            5 => Err(SysCorsairError::InvalidOperation),
            6 => Err(SysCorsairError::DeviceNotFound),
            7 => Err(SysCorsairError::NotAllowed),
            _ => Err(SysCorsairError::UnknownError),
        }
    }
}

impl CorsairError {
    /// Meaning of a status code as a result: success for zero, else the
    /// SDK's failure wrapped as `Sys`.
    pub open spec fn of_status(value: u32) -> Result<(), CorsairError> {
        match SysCorsairError::of_status(value) {
            None => Ok(()),
            Some(e) => Err(CorsairError::Sys(e)),
        }
    }

    /// Reads a status code, wrapping an SDK failure as `Sys`.
    pub fn try_from(value: u32) -> (r: Result<(), CorsairError>)
        ensures
            r == Self::of_status(value),
    {
        match SysCorsairError::try_from(value) {
            Ok(()) => Ok(()),
            Err(sys_err) => Err(CorsairError::Sys(sys_err)),
        }
    }
}

impl IntoCE for u32 {
    fn into_ce(self) -> (r: Result<(), CorsairError>)
        ensures
            r == CorsairError::of_status(self),
    {
        CorsairError::try_from(self)
    }
}

/// Kind of event the SDK can deliver.
#[derive(Debug, Clone, Copy, PartialEq, Eq, Structural)]
pub enum CorsairEventId {
    Invalid,
    DeviceConnectionStatusChangedEvent,
    KeyEvent,
}

/// One of the auxiliary macro keys.
#[derive(Debug, Clone, Copy, PartialEq, Eq, Structural)]
pub enum CorsairMacroKeyId {
    Invalid,
    CMKI1,
    CMKI2,
    CMKI3,
    CMKI4,
    CMKI5,
    CMKI6,
    CMKI7,
    CMKI8,
    CMKI9,
    CMKI10,
    CMKI11,
    CMKI12,
    CMKI13,
    CMKI14,
    CMKI15,
    CMKI16,
    CMKI17,
    CMKI18,
    CMKI19,
    CMKI20,
}

impl CorsairMacroKeyId {
    /// Number the SDK uses for this key: zero for `Invalid`, else the key's
    /// own number.
    pub open spec fn code_spec(self) -> u32 {
        match self {
            CorsairMacroKeyId::Invalid => 0,
            CorsairMacroKeyId::CMKI1 => 1,
            CorsairMacroKeyId::CMKI2 => 2,
            CorsairMacroKeyId::CMKI3 => 3,
            CorsairMacroKeyId::CMKI4 => 4,
            CorsairMacroKeyId::CMKI5 => 5,
            CorsairMacroKeyId::CMKI6 => 6,
            CorsairMacroKeyId::CMKI7 => 7,
            CorsairMacroKeyId::CMKI8 => 8,
            CorsairMacroKeyId::CMKI9 => 9,
            CorsairMacroKeyId::CMKI10 => 10,
            CorsairMacroKeyId::CMKI11 => 11,
            CorsairMacroKeyId::CMKI12 => 12,
            CorsairMacroKeyId::CMKI13 => 13,
            CorsairMacroKeyId::CMKI14 => 14,
            CorsairMacroKeyId::CMKI15 => 15,
            CorsairMacroKeyId::CMKI16 => 16,
            CorsairMacroKeyId::CMKI17 => 17,
            CorsairMacroKeyId::CMKI18 => 18,
            CorsairMacroKeyId::CMKI19 => 19,
            CorsairMacroKeyId::CMKI20 => 20,
        }
    }

    #[verifier::when_used_as_spec(code_spec)]
    pub fn code(self) -> (c: u32)
        ensures
            c == self.code_spec(),
    {
        match self {
            CorsairMacroKeyId::Invalid => 0,
            CorsairMacroKeyId::CMKI1 => 1,
            CorsairMacroKeyId::CMKI2 => 2,
            CorsairMacroKeyId::CMKI3 => 3,
            CorsairMacroKeyId::CMKI4 => 4,
            CorsairMacroKeyId::CMKI5 => 5,
            CorsairMacroKeyId::CMKI6 => 6,
            CorsairMacroKeyId::CMKI7 => 7,
            CorsairMacroKeyId::CMKI8 => 8,
            CorsairMacroKeyId::CMKI9 => 9,
            CorsairMacroKeyId::CMKI10 => 10,
            CorsairMacroKeyId::CMKI11 => 11,
            CorsairMacroKeyId::CMKI12 => 12,
            CorsairMacroKeyId::CMKI13 => 13,
            CorsairMacroKeyId::CMKI14 => 14,
            CorsairMacroKeyId::CMKI15 => 15,
            CorsairMacroKeyId::CMKI16 => 16,
            CorsairMacroKeyId::CMKI17 => 17,
            CorsairMacroKeyId::CMKI18 => 18,
            CorsairMacroKeyId::CMKI19 => 19,
            CorsairMacroKeyId::CMKI20 => 20,
        }
    }

    /// The key with the given number; numbers above twenty name no key.
    pub fn try_from(value: u32) -> (r: Result<CorsairMacroKeyId, CorsairError>)
        ensures
            r.is_ok() <==> value <= 20,
            r matches Ok(k) ==> k.code_spec() == value,
            r matches Err(e) ==> e == CorsairError::InvalidMacroKeyId,
    {
        match value {
            0 => Ok(CorsairMacroKeyId::Invalid),
            1 => Ok(CorsairMacroKeyId::CMKI1),
            2 => Ok(CorsairMacroKeyId::CMKI2),
            3 => Ok(CorsairMacroKeyId::CMKI3),
            4 => Ok(CorsairMacroKeyId::CMKI4),
            5 => Ok(CorsairMacroKeyId::CMKI5),
            6 => Ok(CorsairMacroKeyId::CMKI6),
            7 => Ok(CorsairMacroKeyId::CMKI7),
            8 => Ok(CorsairMacroKeyId::CMKI8),
            9 => Ok(CorsairMacroKeyId::CMKI9),
            10 => Ok(CorsairMacroKeyId::CMKI10),
            11 => Ok(CorsairMacroKeyId::CMKI11),
            12 => Ok(CorsairMacroKeyId::CMKI12),
            13 => Ok(CorsairMacroKeyId::CMKI13),
            14 => Ok(CorsairMacroKeyId::CMKI14),
            15 => Ok(CorsairMacroKeyId::CMKI15),
            16 => Ok(CorsairMacroKeyId::CMKI16),
            17 => Ok(CorsairMacroKeyId::CMKI17),
            18 => Ok(CorsairMacroKeyId::CMKI18),
            19 => Ok(CorsairMacroKeyId::CMKI19),
            20 => Ok(CorsairMacroKeyId::CMKI20),
            _ => Err(CorsairError::InvalidMacroKeyId),
        }
    }
}

/// Type of a device property's value.
#[derive(Debug, Clone, Copy, PartialEq, Eq, Structural)]
pub enum CorsairDataType {
    Boolean,
    Int32,
    Float64,
    String,
    BooleanArray,
    Int32Array,
    Float64Array,
    StringArray,
}

impl CorsairDataType {
    /// Number the SDK uses for this type: scalars count from zero, arrays
    /// from sixteen.
    pub open spec fn code_spec(self) -> u32 {
        match self {
            CorsairDataType::Boolean => 0,
            CorsairDataType::Int32 => 1,
            CorsairDataType::Float64 => 2,
            CorsairDataType::String => 3,
            CorsairDataType::BooleanArray => 16,
            CorsairDataType::Int32Array => 17,
            CorsairDataType::Float64Array => 18,
            CorsairDataType::StringArray => 19,
        }
    }

    #[verifier::when_used_as_spec(code_spec)]
    pub fn code(self) -> (c: u32)
        ensures
            c == self.code_spec(),
    {
        match self {
            CorsairDataType::Boolean => 0,
            CorsairDataType::Int32 => 1,
            CorsairDataType::Float64 => 2,
            CorsairDataType::String => 3,
            CorsairDataType::BooleanArray => 16,
            CorsairDataType::Int32Array => 17,
            CorsairDataType::Float64Array => 18,
            CorsairDataType::StringArray => 19,
        }
    }

    /// The type with the given number, if the number names one.
    pub fn try_from(value: u32) -> (r: Result<CorsairDataType, CorsairError>)
        ensures
            r.is_ok() <==> (value <= 3 || 16 <= value <= 19),
            r matches Ok(t) ==> t.code_spec() == value,
            r matches Err(e) ==> e == CorsairError::InvalidDataType,
    {
        match value {
            0 => Ok(CorsairDataType::Boolean),
            1 => Ok(CorsairDataType::Int32),
            2 => Ok(CorsairDataType::Float64),
            3 => Ok(CorsairDataType::String),
            16 => Ok(CorsairDataType::BooleanArray),
            17 => Ok(CorsairDataType::Int32Array),
            18 => Ok(CorsairDataType::Float64Array),
            19 => Ok(CorsairDataType::StringArray),
            _ => Err(CorsairError::InvalidDataType),
        }
    }
}

/// One capability of a device property.
#[derive(Debug, Clone, Copy, PartialEq, Eq, Structural)]
pub enum CorsairPropertyFlag {
    NoFlag,
    CanRead,
    CanWrite,
    Indexed,
}

/// A set of capabilities of a device property, one bit each.
#[derive(Debug, Clone, Copy, PartialEq, Eq, Structural)]
pub struct CorsairPropertyFlags {
    pub bits: u32,
}

/// Bit of `CorsairPropertyFlag::NoFlag`.
pub const FLAG_NONE: u32 = 0x01;

/// Bit of `CorsairPropertyFlag::CanRead`.
pub const FLAG_CAN_READ: u32 = 0x02;

/// Bit of `CorsairPropertyFlag::CanWrite`.
pub const FLAG_CAN_WRITE: u32 = 0x04;

/// Bit of `CorsairPropertyFlag::Indexed`.
pub const FLAG_INDEXED: u32 = 0x10;

impl CorsairPropertyFlag {
    /// The bit that stands for this capability in a set.
    pub open spec fn bit_spec(self) -> u32 {
        match self {
            CorsairPropertyFlag::NoFlag => FLAG_NONE,
            CorsairPropertyFlag::CanRead => FLAG_CAN_READ,
            CorsairPropertyFlag::CanWrite => FLAG_CAN_WRITE,
            CorsairPropertyFlag::Indexed => FLAG_INDEXED,
        }
    }

    #[verifier::when_used_as_spec(bit_spec)]
    pub fn bit(self) -> (b: u32)
        ensures
            b == self.bit_spec(),
    {
        match self {
            CorsairPropertyFlag::NoFlag => FLAG_NONE,
            CorsairPropertyFlag::CanRead => FLAG_CAN_READ,
            CorsairPropertyFlag::CanWrite => FLAG_CAN_WRITE,
            CorsairPropertyFlag::Indexed => FLAG_INDEXED,
        }
    }
}

impl CorsairPropertyFlags {
    /// Every bit of `bits` stands for a capability.
    pub open spec fn known(bits: u32) -> bool {
        bits & !(FLAG_NONE | FLAG_CAN_READ | FLAG_CAN_WRITE | FLAG_INDEXED) == 0
    }

    /// The set holds the capability.
    pub open spec fn contains_spec(&self, flag: CorsairPropertyFlag) -> bool {
        self.bits & flag.bit_spec() != 0
    }

    /// The set with the given bits, if every one of them stands for a
    /// capability.
    pub fn from_bits(bits: u32) -> (r: Option<CorsairPropertyFlags>)
        ensures
            r == if Self::known(bits) {
                Some(CorsairPropertyFlags { bits })
            } else {
                None::<CorsairPropertyFlags>
            },
    {
        if bits & !(FLAG_NONE | FLAG_CAN_READ | FLAG_CAN_WRITE | FLAG_INDEXED) == 0 {
            Some(CorsairPropertyFlags { bits })
        } else {
            None
        }
    }

    /// Tells whether the set holds the capability.
    #[verifier::when_used_as_spec(contains_spec)]
    pub fn contains(&self, flag: CorsairPropertyFlag) -> (b: bool)
        ensures
            b == self.contains_spec(flag),
    {
        self.bits & flag.bit() != 0
    }
}

/// Reads what the SDK reports of a property: the number of its type and the
/// bits of its capabilities. A number that names no type is refused first,
/// then a bit that stands for no capability.
pub fn property_info(data_type: u32, flags: u32) -> (r: Result<
    (CorsairDataType, CorsairPropertyFlags),
    CorsairError,
>)
    ensures
        r.is_ok() <==> (data_type <= 3 || 16 <= data_type <= 19) && CorsairPropertyFlags::known(
            flags,
        ),
        r matches Ok(info) ==> info.0.code_spec() == data_type && info.1.bits == flags,
        r matches Err(e) ==> e == if data_type <= 3 || 16 <= data_type <= 19 {
            CorsairError::InvalidFlags
        } else {
            CorsairError::InvalidDataType
        },
{
    let data_type = match CorsairDataType::try_from(data_type) {
        Ok(t) => t,
        Err(e) => {
            return Err(e);
        },
    };
    match CorsairPropertyFlags::from_bits(flags) {
        Some(f) => Ok((data_type, f)),
        None => Err(CorsairError::InvalidFlags),
    }
}

/// Three-part version number.
#[derive(Debug, Clone, Copy, PartialEq, Eq, Structural)]
pub struct CorsairVersion {
    pub major: i32,
    pub minor: i32,
    pub patch: i32,
}

/// Versions of the three parties of a session.
#[derive(Debug, Clone, Copy, PartialEq, Eq, Structural)]
pub struct CorsairSessionDetails {
    pub client_version: CorsairVersion,
    pub server_version: CorsairVersion,
    pub server_host_version: CorsairVersion,
}

/// Whether presses of one macro key are intercepted.
#[derive(Debug, Clone, Copy, PartialEq, Eq, Structural)]
pub struct CorsairKeyEventConfiguration {
    pub key_id: CorsairMacroKeyId,
    pub is_intercepted: bool,
}

impl CorsairKeyEventConfiguration {
    /// Configuration from the SDK's pair of key number and flag.
    pub fn try_from(key_id: u32, is_intercepted: bool) -> (r: Result<
        CorsairKeyEventConfiguration,
        CorsairError,
    >)
        ensures
            r.is_ok() <==> key_id <= 20,
            r matches Ok(c) ==> c.key_id.code_spec() == key_id && c.is_intercepted
                == is_intercepted,
            r matches Err(e) ==> e == CorsairError::InvalidMacroKeyId,
    {
        match CorsairMacroKeyId::try_from(key_id) {
            Ok(key) => Ok(CorsairKeyEventConfiguration { key_id: key, is_intercepted }),
            Err(e) => Err(e),
        }
    }
}

/// Physical key arrangement of a keyboard.
#[derive(Debug, Clone, Copy, PartialEq, Eq, Structural)]
pub enum CorsairPhysicalLayout {
    Invalid,
    US,
    UK,
    JP,
    KR,
    BR,
}

/// Logical (language) layout of a keyboard.
#[derive(Debug, Clone, Copy, PartialEq, Eq, Structural)]
pub enum CorsairLogicalLayout {
    Invalid,
    USInt,
    NA,
    EU,
    UK,
    BE,
    BR,
    CH,
    CN,
    DE,
    ES,
    FR,
    IT,
    ND,
    RU,
    JP,
    KR,
    TW,
    MEX,
}

/// Kind of device attached to a controller channel.
#[derive(Debug, Clone, Copy, PartialEq, Eq, Structural)]
pub enum CorsairChannelDeviceType {
    Invalid,
    HdFan,
    SpFan,
    LlFan,
    MlFan,
    QlFan,
    Led8SeriesFan,
    Strip,
    Dap,
    Pump,
    Dram,
    WaterBlock,
    QxFan,
}

/// How much control over a device a client asks for.
#[derive(Debug, Clone, Copy, PartialEq, Eq, Structural)]
pub enum CorsairAccessLevel {
    Shared,
    ExclusiveLightingControl,
    ExclusiveKeyEventsListening,
    ExclusiveLightingControlAndKeyEventsListening,
}

impl CorsairAccessLevel {
    /// Number the SDK uses for this level.
    pub open spec fn code_spec(self) -> u32 {
        match self {
            CorsairAccessLevel::Shared => 0,
            CorsairAccessLevel::ExclusiveLightingControl => 1,
            CorsairAccessLevel::ExclusiveKeyEventsListening => 2,
            CorsairAccessLevel::ExclusiveLightingControlAndKeyEventsListening => 3,
        }
    }

    #[verifier::when_used_as_spec(code_spec)]
    pub fn code(self) -> (c: u32)
        ensures
            c == self.code_spec(),
    {
        match self {
            CorsairAccessLevel::Shared => 0,
            CorsairAccessLevel::ExclusiveLightingControl => 1,
            CorsairAccessLevel::ExclusiveKeyEventsListening => 2,
            CorsairAccessLevel::ExclusiveLightingControlAndKeyEventsListening => 3,
        }
    }
}

/// State of the session with the SDK's server.
#[derive(Debug, Clone, Copy, PartialEq, Eq, Structural)]
pub enum CorsairSessionState {
    Closed,
    Connected,
    Connecting,
    ConnectionLost,
    ConnectionRefused,
    Invalid,
    Timeout,
}

/// A session state number that names no state.
#[derive(Debug, Clone, Copy, PartialEq, Eq, Structural)]
pub struct UnknownError;

impl CorsairSessionState {
    /// Number the SDK uses for this state.
    pub open spec fn code_spec(self) -> u32 {
        match self {
            CorsairSessionState::Invalid => 0,
            CorsairSessionState::Closed => 1,
            CorsairSessionState::Connecting => 2,
            CorsairSessionState::Timeout => 3,
            CorsairSessionState::ConnectionRefused => 4,
            CorsairSessionState::ConnectionLost => 5,
            CorsairSessionState::Connected => 6,
        }
    }

    /// The state with the given number; numbers above six name no state.
    pub fn try_from(value: u32) -> (r: Result<CorsairSessionState, UnknownError>)
        ensures
            r.is_ok() <==> value <= 6,
            r matches Ok(s) ==> s.code_spec() == value,
    {
        match value {
            0 => Ok(CorsairSessionState::Invalid),
            1 => Ok(CorsairSessionState::Closed),
            2 => Ok(CorsairSessionState::Connecting),
            3 => Ok(CorsairSessionState::Timeout),
            4 => Ok(CorsairSessionState::ConnectionRefused),
            5 => Ok(CorsairSessionState::ConnectionLost),
            6 => Ok(CorsairSessionState::Connected),
            _ => Err(UnknownError),
        }
    }
}

/// A property that can be queried of a device.
#[derive(Debug, Clone, Copy, PartialEq, Eq, Structural)]
pub enum CorsairDevicePropertyId {
    Invalid,
    PropertyArray,
    MicEnabled,
    SurroundSoundEnabled,
    SidetoneEnabled,
    EqualizerPreset,
    PhysicalLayout,
    LogicalLayout,
    MacroKeyArray,
    BatteryLevel,
    ChannelLedCount,
    ChannelDeviceCount,
    ChannelDeviceLedCountArray,
    ChannelDeviceTypeArray,
}

impl CorsairDevicePropertyId {
    /// Number the SDK uses for this property: its position in the list.
    pub open spec fn code_spec(self) -> u32 {
        match self {
            CorsairDevicePropertyId::Invalid => 0,
            CorsairDevicePropertyId::PropertyArray => 1,
            CorsairDevicePropertyId::MicEnabled => 2,
            CorsairDevicePropertyId::SurroundSoundEnabled => 3,
            CorsairDevicePropertyId::SidetoneEnabled => 4,
            CorsairDevicePropertyId::EqualizerPreset => 5,
            CorsairDevicePropertyId::PhysicalLayout => 6,
            CorsairDevicePropertyId::LogicalLayout => 7,
            CorsairDevicePropertyId::MacroKeyArray => 8,
            CorsairDevicePropertyId::BatteryLevel => 9,
            CorsairDevicePropertyId::ChannelLedCount => 10,
            CorsairDevicePropertyId::ChannelDeviceCount => 11,
            CorsairDevicePropertyId::ChannelDeviceLedCountArray => 12,
            CorsairDevicePropertyId::ChannelDeviceTypeArray => 13,
        }
    }

    #[verifier::when_used_as_spec(code_spec)]
    pub fn code(self) -> (c: u32)
        ensures
            c == self.code_spec(),
    {
        match self {
            CorsairDevicePropertyId::Invalid => 0,
            CorsairDevicePropertyId::PropertyArray => 1,
            CorsairDevicePropertyId::MicEnabled => 2,
            CorsairDevicePropertyId::SurroundSoundEnabled => 3,
            CorsairDevicePropertyId::SidetoneEnabled => 4,
            CorsairDevicePropertyId::EqualizerPreset => 5,
            CorsairDevicePropertyId::PhysicalLayout => 6,
            CorsairDevicePropertyId::LogicalLayout => 7,
            CorsairDevicePropertyId::MacroKeyArray => 8,
            CorsairDevicePropertyId::BatteryLevel => 9,
            CorsairDevicePropertyId::ChannelLedCount => 10,
            CorsairDevicePropertyId::ChannelDeviceCount => 11,
            CorsairDevicePropertyId::ChannelDeviceLedCountArray => 12,
            CorsairDevicePropertyId::ChannelDeviceTypeArray => 13,
        }
    }
}

/// Kind of a device. The SDK numbers the kinds by single bits, so that a set
/// of kinds can serve as a filter; `All` is that filter with every bit set.
#[derive(Debug, Clone, Copy, PartialEq, Eq, Structural)]
pub enum CorsairDeviceType {
    Unknown,
    Keyboard,
    Mouse,
    Mousemat,
    Headset,
    HeadsetStand,
    FanLedController,
    LedController,
    MemoryModule,
    Cooler,
    Motherboard,
    GraphicsCard,
    Touchbar,
    GameController,
    All,
}

impl CorsairDeviceType {
    /// Kind that a device reports by the given number. Numbers other than
    /// the single bits up to `Touchbar` are read as `Unknown`.
    pub open spec fn of_code(value: u32) -> CorsairDeviceType {
        if value == 0x0001 {
            CorsairDeviceType::Keyboard
        } else if value == 0x0002 {
            CorsairDeviceType::Mouse
        } else if value == 0x0004 {
            CorsairDeviceType::Mousemat
        } else if value == 0x0008 {
            CorsairDeviceType::Headset
        } else if value == 0x0010 {
            CorsairDeviceType::HeadsetStand
        } else if value == 0x0020 {
            CorsairDeviceType::FanLedController
        } else if value == 0x0040 {
            CorsairDeviceType::LedController
        } else if value == 0x0080 {
            CorsairDeviceType::MemoryModule
        } else if value == 0x0100 {
            CorsairDeviceType::Cooler
        } else if value == 0x0200 {
            CorsairDeviceType::Motherboard
        } else if value == 0x0400 {
            CorsairDeviceType::GraphicsCard
        } else if value == 0x0800 {
            CorsairDeviceType::Touchbar
        } else {
            CorsairDeviceType::Unknown
        }
    }

    /// Kind of a device from the number it reports.
    pub fn from(value: u32) -> (r: CorsairDeviceType)
        ensures
            r == Self::of_code(value),
    {
        match value {
            0x0001 => CorsairDeviceType::Keyboard,
            0x0002 => CorsairDeviceType::Mouse,
            0x0004 => CorsairDeviceType::Mousemat,
            0x0008 => CorsairDeviceType::Headset,
            0x0010 => CorsairDeviceType::HeadsetStand,
            0x0020 => CorsairDeviceType::FanLedController,
            0x0040 => CorsairDeviceType::LedController,
            0x0080 => CorsairDeviceType::MemoryModule,
            0x0100 => CorsairDeviceType::Cooler,
            0x0200 => CorsairDeviceType::Motherboard,
            0x0400 => CorsairDeviceType::GraphicsCard,
            0x0800 => CorsairDeviceType::Touchbar,
            _ => CorsairDeviceType::Unknown,
        }
    }
}

/// Whether `r` is the position of the first keyboard in `kinds`: a
/// keyboard with no keyboard before it, or nothing where no device is a
/// keyboard.
pub open spec fn is_first_keyboard(kinds: Seq<CorsairDeviceType>, r: Option<usize>) -> bool {
    match r {
        Some(i) => {
            &&& i < kinds.len()
            &&& kinds[i as int] == CorsairDeviceType::Keyboard
            &&& forall|j: int| 0 <= j < i ==> #[trigger] kinds[j] != CorsairDeviceType::Keyboard
        },
        None => forall|j: int|
            0 <= j < kinds.len() ==> #[trigger] kinds[j] != CorsairDeviceType::Keyboard,
    }
}

/// Picks the device the engine drives: the first keyboard of the list.
pub fn first_keyboard(kinds: &Vec<CorsairDeviceType>) -> (r: Option<usize>)
    ensures
        is_first_keyboard(kinds@, r),
{
    let mut i: usize = 0;
    while i < kinds.len()
        invariant
            i <= kinds@.len(),
            forall|j: int| 0 <= j < i ==> #[trigger] kinds@[j] != CorsairDeviceType::Keyboard,
        decreases kinds@.len() - i,
    {
        if kinds[i] == CorsairDeviceType::Keyboard {
            return Some(i);
        }
        i += 1;
    }
    None
}

/// One record of an uploaded frame: an LED and its 8-bit colour.
#[derive(Debug, Clone, Copy, PartialEq, Eq, Structural)]
pub struct CorsairLedColor {
    pub id: CorsairLedLuid,
    pub r: u8,
    pub g: u8,
    pub b: u8,
    pub a: u8,
}

/// Where one LED sits, in the SDK's coordinate space.
#[derive(Debug, Clone, Copy, PartialEq, Eq, Structural)]
pub struct CorsairLedPosition {
    pub id: CorsairLedLuid,
    pub cx: Double,
    pub cy: Double,
}

/// Priority of this client's lighting layer.
#[derive(Debug, Clone, Copy, PartialEq, Eq, Structural)]
pub struct Priority(pub u32);

impl Priority {
    /// A layer priority. Every 8-bit value is within the SDK's maximum.
    pub fn new(priority: u8) -> (r: Result<Priority, CorsairError>)
        ensures
            r == Ok::<Priority, CorsairError>(Priority(priority as u32)),
    {
        let priority: u32 = priority as u32;
        if priority <= CORSAIR_LAYER_PRIORITY_MAX {
            Ok(Priority(priority))
        } else {
            Err(CorsairError::MaxPriorityExceded)
        }
    }
}

/// Name of a key as the SDK knows it: an upper-case letter.
#[derive(Debug, Clone, Copy, PartialEq, Eq, Structural)]
pub struct KeyName(pub i8);

impl KeyName {
    /// The key named by `c`, which must be one of `A` to `Z`.
    pub fn new(c: char) -> (r: Result<KeyName, CorsairError>)
        ensures
            r.is_ok() <==> 'A' <= c <= 'Z',
            r matches Ok(k) ==> k.0 as int == c as int,
            r matches Err(e) ==> e == CorsairError::InvalidChar,
    {
        if 'A' <= c && c <= 'Z' {
            Ok(KeyName(c as u8 as i8))
        } else {
            Err(CorsairError::InvalidChar)
        }
    }
}

} // verus!
