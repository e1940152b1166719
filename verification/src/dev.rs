//! The device model: devices with numbered methods, kept in a registry of
//! slots whose identifiers carry a generation so that stale ones are refused.

use vstd::prelude::*;
use std::collections::BTreeMap;

verus! {

/// Identifier of a device method.
pub type MethodId = u64;

/// Entry address of a device method (`extern "C" fn(DeviceId, usize) -> DeviceResult`).
pub type DeviceMethod = usize;

/// Status of a device call.
#[allow(non_camel_case_types)]
#[derive(Clone, Copy, Debug, PartialEq, Eq, Structural)]
pub enum DeviceStatus {
    /// The call succeeded (0).
    SUCCESS,
    /// No such device (1).
    NOT_FOUND,
    /// A bad argument (2).
    INVALID_ARG,
    /// The device is busy (3).
    BUSY,
    /// An I/O error (4).
    IO_ERROR,
    /// The method is not supported (`usize::MAX`).
    UNSUPPORTED,
    /// Any other number.
    OTHER(usize),
}

/// Result of a device call: a value and a status.
#[derive(Clone, Copy, Debug, PartialEq, Eq, Structural)]
pub struct DeviceResult {
    /// The value produced (0 on error).
    pub value: usize,
    /// The status of the call.
    pub status: DeviceStatus,
}

impl DeviceResult {
    /// A result with the given value and status.
    pub fn new(value: usize, status: DeviceStatus) -> (r: Self)
        ensures
            r == (DeviceResult { value, status }),
    {
        DeviceResult { value, status }
    }

    /// A successful result carrying `value`.
    pub fn ok(value: usize) -> (r: Self)
        ensures
            r == (DeviceResult { value, status: DeviceStatus::SUCCESS }),
    {
        DeviceResult { value, status: DeviceStatus::SUCCESS }
    }

    /// A failed result with `status` and value 0.
    pub fn err(status: DeviceStatus) -> (r: Self)
        ensures
            r == (DeviceResult { value: 0, status }),
    {
        DeviceResult { value: 0, status }
    }

    /// `Ok(value)` on success, else `Err(status)`.
    pub fn as_result(self) -> (r: Result<usize, DeviceStatus>)
        ensures
            self.status == DeviceStatus::SUCCESS ==> r == Ok::<usize, DeviceStatus>(self.value),
            self.status != DeviceStatus::SUCCESS ==> r == Err::<usize, DeviceStatus>(self.status),
    {
        if self.status == DeviceStatus::SUCCESS {
            Ok(self.value)
        } else {
            Err(self.status)
        }
    }

    /// The result that stands for `res`: `Ok(v)` gives a success with `v`,
    /// `Err(s)` gives status `s` with value 0.
    pub fn from_result(res: Result<usize, DeviceStatus>) -> (r: Self)
        ensures
            res matches Ok(v) ==> r == (DeviceResult { value: v, status: DeviceStatus::SUCCESS }),
            res matches Err(s) ==> r == (DeviceResult { value: 0, status: s }),
    {
        match res {
            Ok(value) => DeviceResult { value, status: DeviceStatus::SUCCESS },
            Err(status) => DeviceResult { value: 0, status },
        }
    }
}

/// A device identifier: slot index in the low 20 bits, generation above.
#[derive(Clone, Copy, Debug, PartialEq, Eq, Structural)]
pub struct DeviceId(pub u32);

/// Number of device slots.
pub const MAX_DEVICES: usize = 1024;

impl DeviceId {
    /// The identifier that names no device.
    pub open spec fn null() -> DeviceId {
        DeviceId(0)
    }

    /// The slot index (low 20 bits).
    pub fn index(self) -> (i: usize)
        ensures
            i == (self.0 & 0xFFFFFu32),
            i < 0x100000,
    {
        let x = self.0;
        assert(x & 0xFFFFFu32 < 0x100000) by (bit_vector);
        (x & 0xFFFFF) as usize
    }

    /// The generation (the bits above the index).
    pub fn generation(self) -> (g: u16)
        ensures
            g == (self.0 >> 20u32),
    {
        let x = self.0;
        assert(x >> 20u32 <= 0xFFF) by (bit_vector);
        (x >> 20) as u16
    }

    /// The identifier of slot `index` at generation `gen_`.
    pub fn new(index: usize, gen_: u16) -> (d: Self)
        ensures
            d.0 == (((gen_ as u32) << 20u32) | (index as u32)),
    {
        DeviceId(((gen_ as u32) << 20) | (index as u32))
    }

    /// Whether this is the null identifier.
    pub fn is_null(self) -> (b: bool)
        ensures
            b == (self.0 == 0),
    {
        self.0 == 0
    }
}

/// An identifier built from a slot index below 2^20 gives back that index,
/// and its generation modulo 4096.
pub proof fn lemma_device_id_round_trip(index: u32, gen_: u16)
    requires
        index < 0x100000,
    ensures
        ((((gen_ as u32) << 20u32) | index) & 0xFFFFFu32) == index,
        ((((gen_ as u32) << 20u32) | index) >> 20u32) == (gen_ as u32) % 4096,
{
    assert(((((gen_ as u32) << 20u32) | index) & 0xFFFFFu32) == index
        && ((((gen_ as u32) << 20u32) | index) >> 20u32) == (gen_ as u32) % 4096) by (bit_vector)
        requires index < 0x100000u32;
}

/// A device: a name, driver data and a table of methods.
pub struct Device {
    /// The identifier given at registration (null before).
    pub id: DeviceId,
    /// The device's name.
    pub name: String,
    /// The parent device, if any.
    pub parent: Option<DeviceId>,
    /// Opaque data of the driver.
    pub driver_data: usize,
    /// Methods by identifier.
    pub methods: BTreeMap<MethodId, DeviceMethod>,
}

impl Device {
    /// A fresh device named `name` with no methods and no driver data.
    pub fn new(name: &str) -> (d: Box<Self>)
        ensures
            d.id == DeviceId::null(),
            d.name@ == name@,
            d.parent is None,
            d.driver_data == 0,
            d.methods@ == Map::<MethodId, DeviceMethod>::empty(),
    {
        Box::new(Device {
            id: DeviceId(0),
            name: name.to_owned(),
            parent: None,
            driver_data: 0,
            methods: BTreeMap::new(),
        })
    }

    /// Adds (or replaces) method `method_id`.
    pub fn add_method(&mut self, method_id: MethodId, method: DeviceMethod)
        ensures
            final(self).methods@ == old(self).methods@.insert(method_id, method),
            final(self).id == old(self).id,
            final(self).name == old(self).name,
            final(self).parent == old(self).parent,
            final(self).driver_data == old(self).driver_data,
    {
        self.methods.insert(method_id, method);
    }

    /// The method with identifier `method_id`, if any.
    pub fn get_method(&self, method_id: MethodId) -> (m: Option<DeviceMethod>)
        ensures
            m == (if self.methods@.contains_key(method_id) { Some(self.methods@[method_id]) } else { None::<DeviceMethod> }),
    {
        match self.methods.get(&method_id) {
            Some(m) => Some(*m),
            None => None,
        }
    }
}

/// The registry of devices: a slot per device and a generation per slot.
pub struct Registry {
    /// The device in each slot.
    pub devices: Vec<Option<Box<Device>>>,
    /// The generation of each slot, advanced at each registration.
    pub generations: Vec<u16>,
}

/// Whether slot `i` of `reg` holds a device registered as `id`'s generation.
pub open spec fn live(reg: &Registry, id: DeviceId) -> bool {
    let idx = (id.0 & 0xFFFFFu32) as int;
    &&& idx < MAX_DEVICES
    &&& reg.devices@[idx] is Some
    &&& (reg.devices@[idx]->0.id.0 >> 20u32) == (id.0 >> 20u32)
}

impl Registry {
    /// The registry's invariant: a slot and a generation for each of the 1024
    /// devices, and each device's identifier carries its slot's generation
    /// (modulo the 12 bits it has).
    pub open spec fn wf(&self) -> bool {
        &&& self.devices@.len() == MAX_DEVICES
        &&& self.generations@.len() == MAX_DEVICES
        &&& forall|i: int| 0 <= i < MAX_DEVICES && (#[trigger] self.devices@[i]) is Some
            ==> (self.devices@[i]->0.id.0 >> 20u32) == self.generations@[i] % 4096
    }

    /// An empty registry.
    pub fn new() -> (r: Self)
        ensures
            r.wf(),
            forall|i: int| 0 <= i < MAX_DEVICES ==> #[trigger] r.devices@[i] is None,
        forall|i: int| 0 <= i < MAX_DEVICES ==> #[trigger] r.generations@[i] == 0,
    {
        let mut devices: Vec<Option<Box<Device>>> = Vec::new();
        let mut generations: Vec<u16> = Vec::new();
        let mut i: usize = 0;
        while i < MAX_DEVICES
            invariant
                i <= MAX_DEVICES,
                devices@.len() == i,
                generations@.len() == i,
                forall|j: int| 0 <= j < i ==> #[trigger] devices@[j] is None,
                forall|j: int| 0 <= j < i ==> #[trigger] generations@[j] == 0,
            decreases MAX_DEVICES - i,
        {
            devices.push(None);
            generations.push(0);
            i = i + 1;
        }
        Registry { devices, generations }
    }

    /// Puts `device` in the first free slot, advancing the slot's generation
    /// (wrapping), and returns its new identifier; `None` if every slot is taken.
    pub fn register(&mut self, device: Box<Device>) -> (r: Option<DeviceId>)
        requires
            old(self).wf(),
        ensures
            final(self).wf(),
            r is None <==> forall|i: int| 0 <= i < MAX_DEVICES ==> #[trigger] old(self).devices@[i] is Some,
            r is None ==> *final(self) == *old(self),
            r matches Some(id) ==> {
                let i = (id.0 & 0xFFFFFu32) as int;
                &&& 0 <= i < MAX_DEVICES
                &&& old(self).devices@[i] is None
                &&& forall|j: int| 0 <= j < i ==> #[trigger] old(self).devices@[j] is Some
                &&& final(self).generations@ == old(self).generations@.update(i, (if old(self).generations@[i] == u16::MAX { 0 } else { old(self).generations@[i] + 1 }) as u16)
                &&& (id.0 >> 20u32) == final(self).generations@[i] % 4096
                &&& final(self).devices@ == old(self).devices@.update(i, Some(Box::new(Device { id, ..*device })))
            },
    {
        let mut i: usize = 0;
        while i < MAX_DEVICES
            invariant
                self.wf(),
                *self == *old(self),
                i <= MAX_DEVICES,
                forall|j: int| 0 <= j < i ==> #[trigger] self.devices@[j] is Some,
            decreases MAX_DEVICES - i,
        {
            if self.devices[i].is_none() {
                let g = self.generations[i].wrapping_add(1);
                self.generations.set(i, g);
                let id = DeviceId::new(i, g);
                proof {
                    lemma_device_id_round_trip(i as u32, g);
                }
                let mut device = device;
                device.id = id;
                self.devices.set(i, Some(device));
                return Some(id);
            }
            i = i + 1;
        }
        None
    }

    /// Empties the slot of `id` if it holds a device of the same generation.
    pub fn unregister(&mut self, id: DeviceId) -> (b: bool)
        requires
            old(self).wf(),
        ensures
            final(self).wf(),
            b == live(old(self), id),
            b ==> final(self).devices@ == old(self).devices@.update((id.0 & 0xFFFFFu32) as int, None)
                && final(self).generations@ == old(self).generations@,
            !b ==> *final(self) == *old(self),
    {
        let idx = id.index();
        if idx >= MAX_DEVICES {
            return false;
        }
        let matches = match &self.devices[idx] {
            Some(d) => d.id.generation() == id.generation(),
            None => false,
        };
        if matches {
            self.devices.set(idx, None);
            return true;
        }
        false
    }

    /// The device registered as `id`, if its slot holds one of the same generation.
    pub fn get_device(&self, id: DeviceId) -> (d: Option<&Device>)
        requires
            self.wf(),
        ensures
            d is Some == live(self, id),
            d matches Some(dev) ==> *dev == *self.devices@[(id.0 & 0xFFFFFu32) as int]->0,
    {
        let idx = id.index();
        if idx >= MAX_DEVICES {
            return None;
        }
        match &self.devices[idx] {
            Some(d) => {
                if d.id.generation() == id.generation() {
                    Some(&**d)
                } else {
                    None
                }
            },
            None => None,
        }
    }
}

/// A new, empty device registry.
pub fn init() -> (r: Registry)
    ensures
        r.wf(),
        forall|i: int| 0 <= i < MAX_DEVICES ==> #[trigger] r.devices@[i] is None,
        forall|i: int| 0 <= i < MAX_DEVICES ==> #[trigger] r.generations@[i] == 0,
{
    Registry::new()
}

/// Registers `device`; see [`Registry::register`].
pub fn register_device(reg: &mut Registry, device: Box<Device>) -> (r: Option<DeviceId>)
    requires
        old(reg).wf(),
    ensures
        final(reg).wf(),
        r is None <==> forall|i: int| 0 <= i < MAX_DEVICES ==> #[trigger] old(reg).devices@[i] is Some,
        r matches Some(id) ==> live(final(reg), id) && final(reg).devices@[(id.0 & 0xFFFFFu32) as int]->0.name == device.name
            && final(reg).devices@[(id.0 & 0xFFFFFu32) as int]->0.driver_data == device.driver_data
            && final(reg).devices@[(id.0 & 0xFFFFFu32) as int]->0.methods == device.methods,
{
    let r = reg.register(device);
    proof {
        if let Some(id) = r {
            lemma_device_id_round_trip((id.0 & 0xFFFFFu32), 0);
        }
    }
    r
}

/// The generation that the next registration into slot `i` gives.
pub open spec fn next_generation(reg: &Registry, i: int) -> int {
    if reg.generations@[i] == u16::MAX { 0 } else { reg.generations@[i] + 1 }
}

/// A slot never hands out the same identifier twice in a row: while `id` is
/// live, the next registration into its slot (after `id` is unregistered,
/// which keeps the generations) gives an identifier of another generation.
pub proof fn lemma_next_id_differs(reg: &Registry, id: DeviceId)
    requires
        reg.wf(),
        live(reg, id),
    ensures
        next_generation(reg, (id.0 & 0xFFFFFu32) as int) % 4096 != (id.0 >> 20u32),
{
    let i = (id.0 & 0xFFFFFu32) as int;
    assert(reg.devices@[i] is Some);
}

/// Unregisters `id`; says whether a device was removed.
pub fn unregister_device(reg: &mut Registry, id: DeviceId) -> (b: bool)
    requires
        old(reg).wf(),
    ensures
        final(reg).wf(),
        b == live(old(reg), id),
        b ==> !live(final(reg), id),
        !b ==> *final(reg) == *old(reg),
{
    reg.unregister(id)
}

/// Sets the driver data of the device `id`; says whether it was found.
pub fn set_driver_data(reg: &mut Registry, id: DeviceId, data: usize) -> (b: bool)
    requires
        old(reg).wf(),
        (id.0 & 0xFFFFFu32) < MAX_DEVICES,
    ensures
        final(reg).wf(),
        b == live(old(reg), id),
        b ==> {
            let i = (id.0 & 0xFFFFFu32) as int;
            &&& final(reg).devices@ == old(reg).devices@.update(i, Some(Box::new(Device { driver_data: data, ..*old(reg).devices@[i]->0 })))
            &&& final(reg).generations@ == old(reg).generations@
        },
        !b ==> *final(reg) == *old(reg),
{
    let idx = id.index();
    let matches = match &reg.devices[idx] {
        Some(d) => d.id.generation() == id.generation(),
        None => false,
    };
    if matches {
        let mut slot: Option<Box<Device>> = None;
        std::mem::swap(&mut slot, &mut reg.devices[idx]);
        match slot {
            Some(mut d) => {
                d.driver_data = data;
                reg.devices.set(idx, Some(d));
            },
            None => {},
        }
        return true;
    }
    false
}

/// The driver data of device `id`, if it is registered.
pub fn get_driver_data(reg: &Registry, id: DeviceId) -> (r: Option<usize>)
    requires
        reg.wf(),
    ensures
        r is Some == live(reg, id),
        r matches Some(v) ==> v == reg.devices@[(id.0 & 0xFFFFFu32) as int]->0.driver_data,
{
    match reg.get_device(id) {
        Some(d) => Some(d.driver_data),
        None => None,
    }
}

/// Decides a call of method `method_id` on device `id`: `Ok(method)` is the
/// method to invoke with the device and the argument; `Err` is the result
/// that the call gives without invoking anything (`NOT_FOUND` for an unknown
/// device, `UNSUPPORTED` for an unknown method).
pub fn call_method(reg: &Registry, id: DeviceId, method_id: MethodId) -> (r: Result<DeviceMethod, DeviceResult>)
    requires
        reg.wf(),
    ensures
        !live(reg, id) ==> r == Err::<DeviceMethod, DeviceResult>(DeviceResult { value: 0, status: DeviceStatus::NOT_FOUND }),
        live(reg, id) ==> {
            let dev = reg.devices@[(id.0 & 0xFFFFFu32) as int]->0;
            if dev.methods@.contains_key(method_id) {
                r == Ok::<DeviceMethod, DeviceResult>(dev.methods@[method_id])
            } else {
                r == Err::<DeviceMethod, DeviceResult>(DeviceResult { value: 0, status: DeviceStatus::UNSUPPORTED })
            }
        },
{
    match reg.get_device(id) {
        None => Err(DeviceResult::new(0, DeviceStatus::NOT_FOUND)),
        Some(device) => match device.get_method(method_id) {
            None => Err(DeviceResult::new(0, DeviceStatus::UNSUPPORTED)),
            Some(m) => Ok(m),
        },
    }
}

} // verus!
