//! The point of contact with the hardware: raw bytes of the fieldbus become telemetry,
//! and commands become raw bytes.

use crate::io_bridge::adapters::{adapter_for, adapter_of, Adapter, BrandAdapter};
use crate::io_bridge::command_vector::{CommandVector, MAX_JOINTS};
use crate::io_bridge::jerk_limiter::{
    approachable, free, law_free_joint_stays_finite, law_tick_is_defined, ordinary, overlaid,
    steady, JerkLimiter, DEFAULT_PERIOD_BITS,
};
use crate::io_bridge::robot_brand::RobotBrand;
use crate::io_bridge::vector_sanitizer::{limits_ok, sanitized, VectorSanitizer};
use crate::io_bridge::wire::shorter;
use crate::json::{
    insert_field, new_object, no_fields, object_text, parsed_object, write_object, JsonField,
    JsonValue,
};
use crate::network_hook::message::{status_topic, status_topic_of, Message, Sent};
use crate::numeric::accuracy::{
    abs, lemma_quotient_error, lemma_sizes, lemma_sum_finite, near, one_unit,
};
use crate::numeric::binary32::{
    law_position_orders_values, law_sum_commutes, law_sum_monotone, lemma_sum_defined, number_zero,
    Binary32, FRACTION_BITS, INFINITY_BITS,
};
use crate::numeric::binary64::NARROWING_EXPONENT;
use crate::numeric::rounding::{lemma_magnitude_compose, lemma_rounded_exists};
use crate::text::bytes_of;
use vstd::arithmetic::power2::*;
use vstd::prelude::*;
use vstd::slice::*;
use vstd::string::*;
use vstd::utf8::encode_utf8;
pub use crate::io_bridge::fieldbus::{FieldbusConfig, FieldbusTransport};

verus! {

/// Size of the buffer for a command in native form.
pub const COMMAND_BUF: usize = 2048;

/// The number 1.
pub const ONE_BITS: u32 = 0x3f80_0000;

/// Cuts every value to the limits of its joint.
pub fn clamp_to_limits(values: &[Binary32], limits: &[(Binary32, Binary32)]) -> (c: CommandVector)
    requires
        limits_ok(limits@, shorter(values@.len(), MAX_JOINTS as nat)),
    ensures
        c.wf(),
        c.len == shorter(values@.len(), MAX_JOINTS as nat),
        forall|i: int|
            0 <= i < MAX_JOINTS ==> #[trigger] c.entries()[i] == if i >= values@.len() {
                number_zero()
            } else if i < limits@.len() {
                values@[i].clamped(limits@[i].0, limits@[i].1)
            } else {
                values@[i]
            },
{
    let mut c: CommandVector = CommandVector::new();
    let n: usize = if values.len() < MAX_JOINTS {
        values.len()
    } else {
        MAX_JOINTS
    };
    let mut i: usize = 0;
    while i < n
        invariant
            i <= n <= MAX_JOINTS,
            n == shorter(values@.len(), MAX_JOINTS as nat),
            limits_ok(limits@, n as nat),
            forall|j: int|
                0 <= j < i ==> #[trigger] c.target_actuators@[j] == if j < limits@.len() {
                    values@[j].clamped(limits@[j].0, limits@[j].1)
                } else {
                    values@[j]
                },
            forall|j: int| i <= j < MAX_JOINTS ==> #[trigger] c.target_actuators@[j]
                == number_zero(),
        decreases n - i,
    {
        let v: Binary32 = values[i];
        if i < limits.len() {
            let (min, max) = limits[i];
            assert(limits@[i as int].0.not_over(limits@[i as int].1));
            c.target_actuators[i] = v.clamp(min, max);
        } else {
            c.target_actuators[i] = v;
        }
        i = i + 1;
    }
    c.len = n;
    c
}

/// The hardware layer of one robot.
pub struct HardwareAbstraction {
    pub config: FieldbusConfig,
    pub adapter: Adapter,
    /// Stops illegal values before they reach the drives.
    pub sanitizer: VectorSanitizer,
    /// Smoothes the command curve.
    pub jerk_limiter: JerkLimiter,
}

/// The sampling period for a nominal frequency.
pub open spec fn period_of(config: FieldbusConfig) -> Binary32 {
    if config.expected_hz.over_zero() {
        (Binary32 { bits: ONE_BITS }).quotient(config.expected_hz.narrowed())
    } else {
        (Binary32 { bits: DEFAULT_PERIOD_BITS })
    }
}

/// The fields of a status report.
pub open spec fn status_fields(
    transport: Seq<char>,
    brand: Seq<char>,
    protocol: Seq<char>,
    online: bool,
    frames: u64,
    estop: bool,
) -> Map<Seq<char>, JsonValue> {
    no_fields().insert("online"@, JsonValue::Flag(online)).insert(
        "transport"@,
        JsonValue::Text(transport),
    ).insert("brand"@, JsonValue::Text(brand)).insert("protocol"@, JsonValue::Text(protocol)).insert(
        "frames"@,
        JsonValue::Count(frames),
    ).insert("estop"@, JsonValue::Flag(estop))
}

impl HardwareAbstraction {
    /// The layer as made for a configuration: nothing was commanded yet.
    pub open spec fn made_for(self, config: FieldbusConfig) -> bool {
        &&& self.config == config
        &&& self.adapter == adapter_of(config.brand)
        &&& self.sanitizer.last_safe@ == Seq::new(MAX_JOINTS as nat, |i: int| number_zero())
        &&& self.jerk_limiter.dt == if number_zero().below(period_of(config)) {
            period_of(config)
        } else {
            (Binary32 { bits: DEFAULT_PERIOD_BITS })
        }
        &&& self.jerk_limiter.prev_pos@ == Seq::new(MAX_JOINTS as nat, |i: int| number_zero())
        &&& self.jerk_limiter.prev_vel@ == Seq::new(MAX_JOINTS as nat, |i: int| number_zero())
        &&& self.jerk_limiter.prev_acc@ == Seq::new(MAX_JOINTS as nat, |i: int| number_zero())
        &&& self.jerk_limiter.max_vel@ == overlaid(unlimited(), config.max_speed_rad_s@)
        &&& self.jerk_limiter.max_acc@ == overlaid(unlimited(), config.max_accel_rad_s2@)
        &&& self.jerk_limiter.max_jerk@ == overlaid(unlimited(), config.max_jerk_rad_s3@)
    }

    pub fn new(config: FieldbusConfig) -> (h: HardwareAbstraction)
        ensures
            h.made_for(config),
    {
        let adapter: Adapter = adapter_for(config.brand);
        let dt: Binary32 = if config.expected_hz.is_positive() {
            (Binary32 { bits: ONE_BITS }).divided_by(config.expected_hz.narrow())
        } else {
            Binary32 { bits: DEFAULT_PERIOD_BITS }
        };
        let mut jerk_limiter: JerkLimiter = JerkLimiter::new(dt);
        jerk_limiter.set_limits(
            config.max_speed_rad_s.as_slice(),
            config.max_accel_rad_s2.as_slice(),
            config.max_jerk_rad_s3.as_slice(),
        );
        HardwareAbstraction { config, adapter, sanitizer: VectorSanitizer::new(), jerk_limiter }
    }

    pub open spec fn transport_text(self) -> Seq<char> {
        match self.config.transport {
            FieldbusTransport::Serial { .. } => "SERIAL"@,
            FieldbusTransport::Udp { .. } => "UDP"@,
            FieldbusTransport::Tcp { .. } => "TCP"@,
        }
    }

    pub fn transport_name(&self) -> (s: &'static str)
        ensures
            s@ == self.transport_text(),
    {
        match &self.config.transport {
            FieldbusTransport::Serial { .. } => "SERIAL",
            FieldbusTransport::Udp { .. } => "UDP",
            FieldbusTransport::Tcp { .. } => "TCP",
        }
    }

    pub fn brand_label(&self) -> (s: &'static str)
        ensures
            s@ == self.adapter.brand_is().label_text(),
    {
        self.adapter.brand().label()
    }

    /// The limits of the first `n` joints can be kept: those of the position are
    /// intervals, and those of the motion are not negative.
    pub open spec fn ready(self, n: nat) -> bool {
        &&& limits_ok(self.config.joint_limits_rad@, shorter(n, MAX_JOINTS as nat))
        &&& forall|i: int|
            0 <= i < MAX_JOINTS && i < n ==> #[trigger] self.jerk_limiter.usable(i)
    }

    /// Whether the limits of the first `n` joints can be kept.
    pub fn is_ready(&self, n: usize) -> (r: bool)
        ensures
            r == self.ready(n as nat),
    {
        let m: usize = if n < MAX_JOINTS {
            n
        } else {
            MAX_JOINTS
        };
        let mut i: usize = 0;
        while i < m
            invariant
                i <= m <= MAX_JOINTS,
                m == shorter(n as nat, MAX_JOINTS as nat),
                limits_ok(self.config.joint_limits_rad@, i as nat),
                forall|j: int| 0 <= j < i ==> #[trigger] self.jerk_limiter.usable(j),
            decreases m - i,
        {
            if i < self.config.joint_limits_rad.len() {
                let (min, max) = self.config.joint_limits_rad[i];
                if !min.at_most(max) {
                    assert(!limits_ok(self.config.joint_limits_rad@, m as nat)) by {
                        let limits = self.config.joint_limits_rad@;
                        assert(!limits[i as int].0.not_over(limits[i as int].1));
                    }
                    return false;
                }
            }
            if !self.jerk_limiter.is_usable(i) {
                assert(!self.jerk_limiter.usable(i as int));
                return false;
            }
            i = i + 1;
        }
        true
    }

    /// What the drive of joint `i` receives for the command `v`: the command made
    /// legal, cut to the limits, and smoothed.
    pub open spec fn drive_value(self, i: int, v: Binary32) -> Binary32 {
        let limits = self.config.joint_limits_rad@;
        self.jerk_limiter.commanded(
            i,
            sanitized(v, self.sanitizer.last_safe@[i], limits, i),
            limits,
        )
    }

    /// What the drives receive for a command.
    pub open spec fn drive_values(self, values: Seq<Binary32>) -> Seq<Binary32> {
        Seq::new(values.len(), |i: int| self.drive_value(i, values[i]))
    }

    /// How the layer changes with a command of `n` entries `values`.
    pub open spec fn advanced(self, next: HardwareAbstraction, values: Seq<Binary32>) -> bool {
        let limits = self.config.joint_limits_rad@;
        &&& next.config == self.config
        &&& next.adapter == self.adapter
        &&& next.jerk_limiter.dt == self.jerk_limiter.dt
        &&& next.jerk_limiter.max_vel == self.jerk_limiter.max_vel
        &&& next.jerk_limiter.max_acc == self.jerk_limiter.max_acc
        &&& next.jerk_limiter.max_jerk == self.jerk_limiter.max_jerk
        &&& forall|i: int|
            0 <= i < values.len() ==> {
                let legal = sanitized(values[i], self.sanitizer.last_safe@[i], limits, i);
                &&& #[trigger] next.sanitizer.last_safe@[i] == legal
                &&& next.jerk_limiter.prev_pos@[i] == self.drive_value(i, values[i])
                &&& next.jerk_limiter.prev_vel@[i] == self.jerk_limiter.tick(i, legal).velocity
                &&& next.jerk_limiter.prev_acc@[i] == self.jerk_limiter.tick(i, legal).acceleration
            }
        &&& forall|i: int|
            values.len() <= i < MAX_JOINTS ==> {
                &&& #[trigger] next.sanitizer.last_safe@[i] == self.sanitizer.last_safe@[i]
                &&& next.jerk_limiter.prev_pos@[i] == self.jerk_limiter.prev_pos@[i]
                &&& next.jerk_limiter.prev_vel@[i] == self.jerk_limiter.prev_vel@[i]
                &&& next.jerk_limiter.prev_acc@[i] == self.jerk_limiter.prev_acc@[i]
            }
    }

    /// The safety pipeline of commands: first illegal values are replaced and all are
    /// cut to the limits, then the curve is smoothed.
    pub fn clamp_command(&mut self, command: CommandVector) -> (c: CommandVector)
        requires
            command.wf(),
            old(self).ready(command.len as nat),
        ensures
            c.wf(),
            c.len == command.len,
            c@ == old(self).drive_values(command@),
            old(self).advanced(*final(self), command@),
    {
        let mut c: CommandVector = command;
        self.sanitizer.sanitize_and_clamp(&mut c, self.config.joint_limits_rad.as_slice());
        let ghost legal = c;
        proof {
            assert forall|i: int| 0 <= i < MAX_JOINTS && i < legal.len
                implies #[trigger] old(self).jerk_limiter.usable(i) by {}
        }
        self.jerk_limiter.limit(&mut c, self.config.joint_limits_rad.as_slice());
        proof {
            assert forall|i: int| 0 <= i < command.len implies #[trigger] c.entries()[i]
                == old(self).drive_value(i, command@[i]) by {
                assert(legal.entries()[i] == sanitized(
                    command.entries()[i],
                    old(self).sanitizer.last_safe@[i],
                    old(self).config.joint_limits_rad@,
                    i,
                ));
            }
            assert(c.entries() == c.target_actuators@);
            assert(c@ =~= old(self).drive_values(command@));
            assert forall|i: int| 0 <= i < command@.len() implies {
                let l = sanitized(
                    command@[i],
                    old(self).sanitizer.last_safe@[i],
                    old(self).config.joint_limits_rad@,
                    i,
                );
                &&& #[trigger] self.sanitizer.last_safe@[i] == l
                &&& self.jerk_limiter.prev_pos@[i] == old(self).drive_value(i, command@[i])
                &&& self.jerk_limiter.prev_vel@[i] == old(self).jerk_limiter.tick(i, l).velocity
                &&& self.jerk_limiter.prev_acc@[i] == old(self).jerk_limiter.tick(i, l).acceleration
            } by {
                assert(legal.entries()[i] == sanitized(
                    command.entries()[i],
                    old(self).sanitizer.last_safe@[i],
                    old(self).config.joint_limits_rad@,
                    i,
                ));
                assert(c.entries()[i] == old(self).drive_value(i, command@[i]));
            }
        }
        c
    }

    /// The status report.
    pub open spec fn status(self, online: bool, frames: u64, estop: bool) -> Sent {
        Sent {
            topic: status_topic_of(self.config.hardware_id@),
            payload: encode_utf8(
                object_text(
                    status_fields(
                        self.transport_text(),
                        self.adapter.brand_is().label_text(),
                        self.adapter.protocol_text(),
                        online,
                        frames,
                        estop,
                    ),
                ),
            ),
        }
    }

    /// The status report. Reading its payload gives the fields back.
    pub fn status_message(&self, online: bool, frames: u64, estop: bool) -> (m: Message)
        ensures
            m@ == self.status(online, frames, estop),
            parsed_object(m.payload@) == Some(
                status_fields(
                    self.transport_text(),
                    self.adapter.brand_is().label_text(),
                    self.adapter.protocol_text(),
                    online,
                    frames,
                    estop,
                ),
            ),
    {
        let mut object: serde_json::Map<String, serde_json::Value> = new_object();
        insert_field(&mut object, "online", JsonField::Flag(online));
        insert_field(&mut object, "transport", JsonField::Text(self.transport_name().to_string()));
        insert_field(&mut object, "brand", JsonField::Text(self.brand_label().to_string()));
        insert_field(
            &mut object,
            "protocol",
            JsonField::Text(self.adapter.protocol_label().to_string()),
        );
        insert_field(&mut object, "frames", JsonField::Count(frames));
        insert_field(&mut object, "estop", JsonField::Flag(estop));
        let text: String = write_object(object);
        Message { topic: status_topic(&self.config.hardware_id), payload: bytes_of(&text) }
    }
}

/// The layer is in a finite state at joint `i`, whose position has finite limits. The joint
/// may be without limits for its motion.
pub open spec fn settled(h: HardwareAbstraction, i: int) -> bool {
    let limits = h.config.joint_limits_rad@;
    &&& 0 <= i < MAX_JOINTS
    &&& i < limits.len()
    &&& limits[i].0.finite()
    &&& limits[i].1.finite()
    &&& limits[i].0.not_over(limits[i].1)
    &&& h.sanitizer.last_safe@[i].finite()
    &&& h.jerk_limiter.usable(i)
    &&& steady(h.jerk_limiter, i)
}

/// A layer that was just made is in a finite state, at every joint with finite limits.
pub proof fn law_new_layer_is_settled(h: HardwareAbstraction, config: FieldbusConfig, i: int)
    requires
        h.made_for(config),
        h.jerk_limiter.dt.finite(),
        h.jerk_limiter.usable(i),
        0 <= i < MAX_JOINTS,
        i < config.joint_limits_rad@.len(),
        config.joint_limits_rad@[i].0.finite(),
        config.joint_limits_rad@[i].1.finite(),
        config.joint_limits_rad@[i].0.not_over(config.joint_limits_rad@[i].1),
    ensures
        settled(h, i),
{
    if !number_zero().below(period_of(config)) {
        assert(number_zero().below(Binary32 { bits: DEFAULT_PERIOD_BITS }));
    }
}

/// Whatever is commanded, what reaches the drive of a joint is a finite number within
/// the limits of the joint. This holds from every finite state, unless both the distance to
/// the previous position and the time of the approach are beyond the largest number. The
/// layer stays in a finite state exactly if the velocity and the acceleration of the joint
/// stay finite, as they do wherever they are limited.
pub proof fn law_drives_get_safe_values(
    h: HardwareAbstraction,
    next: HardwareAbstraction,
    values: Seq<Binary32>,
    i: int,
)
    requires
        settled(h, i),
        0 <= i < values.len() <= MAX_JOINTS,
        h.advanced(next, values),
        approachable(
            h.jerk_limiter,
            i,
            sanitized(values[i], h.sanitizer.last_safe@[i], h.config.joint_limits_rad@, i),
        ),
    ensures
        h.drive_value(i, values[i]).finite(),
        h.config.joint_limits_rad@[i].0.not_over(h.drive_value(i, values[i])),
        h.drive_value(i, values[i]).not_over(h.config.joint_limits_rad@[i].1),
        settled(next, i) <==> next.jerk_limiter.prev_vel@[i].finite()
            && next.jerk_limiter.prev_acc@[i].finite(),
        h.jerk_limiter.max_vel@[i].finite() && h.jerk_limiter.max_acc@[i].finite() ==> settled(
            next,
            i,
        ),
{
    let limits = h.config.joint_limits_rad@;
    let legal = sanitized(values[i], h.sanitizer.last_safe@[i], limits, i);
    assert(legal.finite());
    law_tick_is_defined(h.jerk_limiter, i, legal);
    assert(next.sanitizer.last_safe@[i] == legal);
}

/// A joint without limits for its motion stays in a finite state too, where its position is
/// limited to an ordinary size.
pub proof fn law_free_joint_stays_settled(
    h: HardwareAbstraction,
    next: HardwareAbstraction,
    values: Seq<Binary32>,
    i: int,
)
    requires
        settled(h, i),
        free(h.jerk_limiter, i),
        ordinary(h.jerk_limiter, i),
        abs(h.config.joint_limits_rad@[i].0.value()) <= 65536 * one_unit(),
        abs(h.config.joint_limits_rad@[i].1.value()) <= 65536 * one_unit(),
        0 <= i < values.len() <= MAX_JOINTS,
        h.advanced(next, values),
    ensures
        settled(next, i),
        ordinary(next.jerk_limiter, i),
        h.drive_value(i, values[i]).finite(),
        h.config.joint_limits_rad@[i].0.not_over(h.drive_value(i, values[i])),
        h.drive_value(i, values[i]).not_over(h.config.joint_limits_rad@[i].1),
{
    let limits = h.config.joint_limits_rad@;
    let legal = sanitized(values[i], h.sanitizer.last_safe@[i], limits, i);
    assert(legal.finite());
    lemma_value_within(limits[i].0, legal, limits[i].1);
    law_free_joint_stays_finite(h.jerk_limiter, i, legal);
    lemma_sizes();
    lemma_sum_finite(legal, h.jerk_limiter.prev_pos@[i]);
    law_drives_get_safe_values(h, next, values, i);
    lemma_value_within(limits[i].0, h.drive_value(i, values[i]), limits[i].1);
}

/// The value of a number within limits is within their values.
proof fn lemma_value_within(min: Binary32, x: Binary32, max: Binary32)
    requires
        min.finite(),
        x.finite(),
        max.finite(),
        min.not_over(x),
        x.not_over(max),
    ensures
        min.value() <= x.value() <= max.value(),
{
    law_position_orders_values(min, x);
    law_position_orders_values(x, max);
}

/// The distance between two positions within the limits is within the largest number,
/// as soon as that between the limits is.
pub proof fn law_distance_within_limits(
    min: Binary32,
    max: Binary32,
    from: Binary32,
    to: Binary32,
)
    requires
        min.finite(),
        max.finite(),
        min.not_over(from),
        from.not_over(max),
        min.not_over(to),
        to.not_over(max),
        max.difference(min).finite(),
        min.difference(max).finite(),
    ensures
        to.difference(from).finite(),
{
    lemma_sum_defined(to, from.opposite());
    lemma_sum_defined(max, from.opposite());
    lemma_sum_defined(min, from.opposite());
    law_sum_monotone(to, max, from.opposite());
    law_sum_monotone(min, to, from.opposite());
    law_sum_commutes(max, from.opposite());
    law_sum_commutes(max, min.opposite());
    law_sum_commutes(min, from.opposite());
    law_sum_commutes(min, max.opposite());
    law_sum_monotone(from.opposite(), min.opposite(), max);
    law_sum_monotone(max.opposite(), from.opposite(), min);
}

/// The brand of a robot makes no difference to what its drives are commanded; it only
/// decides how the command is encoded.
pub proof fn law_brand_does_not_matter(
    a: HardwareAbstraction,
    b: HardwareAbstraction,
    config: FieldbusConfig,
    brand: RobotBrand,
    values: Seq<Binary32>,
)
    requires
        a.made_for(config),
        b.made_for(FieldbusConfig { brand, ..config }),
    ensures
        a.drive_values(values) == b.drive_values(values),
        b.adapter.brand_is() == brand,
{
    assert forall|i: int| 0 <= i < values.len() implies a.drive_value(i, values[i])
        == b.drive_value(i, values[i]) by {}
    assert(a.drive_values(values) =~= b.drive_values(values));
}

/// No limit for any joint.
pub open spec fn unlimited() -> Seq<Binary32> {
    Seq::new(MAX_JOINTS as nat, |i: int| Binary32 { bits: INFINITY_BITS })
}

/// What the drive of a joint receives rests on the command for that joint alone.
pub proof fn law_drives_are_independent(
    h: HardwareAbstraction,
    a: Seq<Binary32>,
    b: Seq<Binary32>,
    i: int,
)
    requires
        0 <= i < a.len(),
        i < b.len(),
        a[i] == b[i],
    ensures
        h.drive_values(a)[i] == h.drive_values(b)[i],
        h.drive_values(a).len() == a.len(),
{
}

/// The sampling period is the inverse of the nominal frequency, up to rounding.
pub proof fn law_period_is_inverse(config: FieldbusConfig)
    requires
        config.expected_hz.over_zero(),
        config.expected_hz.narrowed().finite(),
        period_of(config).finite(),
    ensures
        near(
            one_unit() as int * one_unit() as int,
            period_of(config).value(),
            config.expected_hz.narrowed().value(),
        ),
{
    let one = Binary32 { bits: ONE_BITS };
    lemma2_to64();
    assert(pow2(23) == 8388608);
    lemma_magnitude_compose(23, 126, 8388608);
    lemma_pow2_adds(23, 126);
    assert(126 * 8388608 + 8388608 == ONE_BITS as int);
    assert(one.value() == one_unit());
    lemma_rounded_exists(
        FRACTION_BITS as nat,
        INFINITY_BITS as nat,
        config.expected_hz.size(),
        pow2(NARROWING_EXPONENT as nat),
    );
    lemma_quotient_error(one, config.expected_hz.narrowed());
}

/// Each field of a status report holds what it is named after.
pub proof fn law_status_fields(
    transport: Seq<char>,
    brand: Seq<char>,
    protocol: Seq<char>,
    online: bool,
    frames: u64,
    estop: bool,
)
    ensures
        ({
            let f = status_fields(transport, brand, protocol, online, frames, estop);
            &&& f["online"@] == JsonValue::Flag(online)
            &&& f["transport"@] == JsonValue::Text(transport)
            &&& f["brand"@] == JsonValue::Text(brand)
            &&& f["protocol"@] == JsonValue::Text(protocol)
            &&& f["frames"@] == JsonValue::Count(frames)
            &&& f["estop"@] == JsonValue::Flag(estop)
        }),
{
    reveal_strlit("online");
    reveal_strlit("transport");
    reveal_strlit("brand");
    reveal_strlit("protocol");
    reveal_strlit("frames");
    reveal_strlit("estop");
    assert("online"@.len() == 6 && "online"@[0] == 'o');
    assert("transport"@.len() == 9);
    assert("brand"@.len() == 5 && "brand"@[0] == 'b');
    assert("protocol"@.len() == 8);
    assert("frames"@.len() == 6 && "frames"@[0] == 'f');
    assert("estop"@.len() == 5 && "estop"@[0] == 'e');
}

/// A layer reports the transport that it is connected by.
pub proof fn law_transport_is_named(h: HardwareAbstraction)
    ensures
        h.config.transport is Serial <==> h.transport_text() == "SERIAL"@,
        h.config.transport is Udp <==> h.transport_text() == "UDP"@,
        h.config.transport is Tcp <==> h.transport_text() == "TCP"@,
{
    reveal_strlit("SERIAL");
    reveal_strlit("UDP");
    reveal_strlit("TCP");
    assert("SERIAL"@[0] == 'S');
    assert("UDP"@[0] == 'U');
    assert("TCP"@[0] == 'T');
}

} // verus!
