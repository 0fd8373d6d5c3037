//! Compatibility profiles of the main industrial robot brands.

use crate::text::{
    has_separate_word, has_word, lowered, lowered_chars, occurs, occurs_at, occurs_separate,
};
use vstd::prelude::*;
use vstd::string::*;

verus! {

/// The brand of a robot decides which native codec talks to it.
#[derive(Debug, Clone, Copy, PartialEq, Eq, Structural)]
pub enum RobotBrand {
    /// Binary frames of numbers, without a specific adapter.
    Generic,
    /// KUKA: KRC4/KRC5 controllers over Ethernet KRL (XML on TCP, port 7911).
    Kuka,
    /// Comau: C5G/C6G controllers over a PDL2 socket bridge (text on TCP).
    Comau,
    /// Universal Robots: Real-Time Client (port 30003) and URScript (30002).
    UniversalRobots,
    /// Franka Emika: Panda over FCI (Franka Control Interface, UDP 30401).
    FrankaEmika,
    /// Standard mobile platforms: twist and odometry in the style of ROS 2.
    Amr,
}

/// `name` contains `word`, whatever the case of its letters.
pub open spec fn mentions(name: Seq<char>, word: &str) -> bool {
    occurs(lowered(name), word@)
}

/// `name` contains `word` as a word of its own, whatever the case of its letters. Digits
/// may follow, as in `UR5e`.
pub open spec fn names(name: Seq<char>, word: &str) -> bool {
    occurs_separate(lowered(name), word@)
}

/// The brand that a manufacturer's name mentions, in order of precedence. Only `ur`, which
/// is also a part of words such as `manufacturing`, must stand for itself.
pub open spec fn brand_of(name: Seq<char>) -> RobotBrand {
    if mentions(name, "kuka") {
        RobotBrand::Kuka
    } else if mentions(name, "comau") {
        RobotBrand::Comau
    } else if mentions(name, "franka") || mentions(name, "emika") || mentions(name, "panda") {
        RobotBrand::FrankaEmika
    } else if mentions(name, "universal") || names(name, "ur") {
        RobotBrand::UniversalRobots
    } else if mentions(name, "amr") || mentions(name, "agv") || mentions(name, "mobile") {
        RobotBrand::Amr
    } else {
        RobotBrand::Generic
    }
}

impl RobotBrand {
    /// Recognizes the brand from a free-form name.
    pub fn from_manufacturer(manufacturer: &str) -> (b: RobotBrand)
        ensures
            b == brand_of(manufacturer@),
    {
        let s: Vec<char> = lowered_chars(manufacturer);
        if has_word(&s, "kuka") {
            RobotBrand::Kuka
        } else if has_word(&s, "comau") {
            RobotBrand::Comau
        } else if has_word(&s, "franka") || has_word(&s, "emika") || has_word(&s, "panda") {
            RobotBrand::FrankaEmika
        } else if has_word(&s, "universal") || has_separate_word(&s, "ur") {
            RobotBrand::UniversalRobots
        } else if has_word(&s, "amr") || has_word(&s, "agv") || has_word(&s, "mobile") {
            RobotBrand::Amr
        } else {
            RobotBrand::Generic
        }
    }

    pub open spec fn label_text(self) -> Seq<char> {
        match self {
            RobotBrand::Generic => "GENERIC"@,
            RobotBrand::Kuka => "KUKA"@,
            RobotBrand::Comau => "COMAU"@,
            RobotBrand::UniversalRobots => "UNIVERSAL-ROBOTS"@,
            RobotBrand::FrankaEmika => "FRANKA-EMIKA"@,
            RobotBrand::Amr => "AMR"@,
        }
    }

    /// Readable label for logs and the user interface.
    pub fn label(&self) -> (s: &'static str)
        ensures
            s@ == self.label_text(),
    {
        match self {
            RobotBrand::Generic => "GENERIC",
            RobotBrand::Kuka => "KUKA",
            RobotBrand::Comau => "COMAU",
            RobotBrand::UniversalRobots => "UNIVERSAL-ROBOTS",
            RobotBrand::FrankaEmika => "FRANKA-EMIKA",
            RobotBrand::Amr => "AMR",
        }
    }

    pub open spec fn dof(self) -> nat {
        match self {
            RobotBrand::FrankaEmika => 7,
            RobotBrand::Amr => 4,
            _ => 6,
        }
    }

    /// Native degrees of freedom, for a configuration that does not give them.
    pub fn native_dof(&self) -> (n: usize)
        ensures
            n == self.dof(),
    {
        match self {
            RobotBrand::FrankaEmika => 7,
            RobotBrand::Amr => 4,
            RobotBrand::Kuka
            | RobotBrand::Comau
            | RobotBrand::UniversalRobots
            | RobotBrand::Generic => 6,
        }
    }

    pub open spec fn protocol_text(self) -> Seq<char> {
        match self {
            RobotBrand::Generic => "Fixed-f32-LE"@,
            RobotBrand::Kuka => "Ethernet-KRL-XML"@,
            RobotBrand::Comau => "PDL2-Socket"@,
            RobotBrand::UniversalRobots => "UR-RTClient/URScript"@,
            RobotBrand::FrankaEmika => "FCI-UDP"@,
            RobotBrand::Amr => "ROS2-Twist/Odom"@,
        }
    }

    /// Native protocol of the adapter's codec.
    pub fn native_protocol(&self) -> (s: &'static str)
        ensures
            s@ == self.protocol_text(),
    {
        match self {
            RobotBrand::Generic => "Fixed-f32-LE",
            RobotBrand::Kuka => "Ethernet-KRL-XML",
            RobotBrand::Comau => "PDL2-Socket",
            RobotBrand::UniversalRobots => "UR-RTClient/URScript",
            RobotBrand::FrankaEmika => "FCI-UDP",
            RobotBrand::Amr => "ROS2-Twist/Odom",
        }
    }

    pub open spec fn transport_text(self) -> Seq<char> {
        match self {
            RobotBrand::FrankaEmika => "Udp"@,
            RobotBrand::Kuka | RobotBrand::Comau | RobotBrand::UniversalRobots => "Tcp"@,
            RobotBrand::Generic | RobotBrand::Amr => "Serial"@,
        }
    }

    /// Transport that the brand suggests.
    pub fn default_transport(&self) -> (s: &'static str)
        ensures
            s@ == self.transport_text(),
    {
        match self {
            RobotBrand::FrankaEmika => "Udp",
            RobotBrand::Kuka | RobotBrand::Comau | RobotBrand::UniversalRobots => "Tcp",
            RobotBrand::Generic | RobotBrand::Amr => "Serial",
        }
    }
}

impl Default for RobotBrand {
    fn default() -> (b: RobotBrand)
        ensures
            b == RobotBrand::Generic,
    {
        RobotBrand::Generic
    }
}

/// Upper and lower case make no difference to the brand that is recognized: names that
/// differ in the case of their letters alone have the same brand.
pub proof fn law_case_does_not_matter(name: Seq<char>, other: Seq<char>)
    requires
        lowered(name) == lowered(other),
    ensures
        brand_of(name) == brand_of(other),
        brand_of(lowered(name)) == brand_of(name),
{
    assert(lowered(lowered(name)) =~= lowered(name));
}

/// A name in which nothing stands for a brand is that of a generic robot.
pub proof fn law_other_names_are_generic(name: Seq<char>)
    ensures
        brand_of(name) == RobotBrand::Generic <==> !(mentions(name, "kuka") || mentions(
            name,
            "comau",
        ) || mentions(name, "franka") || mentions(name, "emika") || mentions(name, "panda")
            || mentions(name, "universal") || names(name, "ur") || mentions(name, "amr")
            || mentions(name, "agv") || mentions(name, "mobile")),
{
}

/// A word with a letter that a text does not have does not stand in the text.
proof fn lemma_absent(s: Seq<char>, w: Seq<char>, p: int)
    requires
        0 <= p < w.len(),
        forall|i: int| 0 <= i < s.len() ==> #[trigger] s[i] != w[p],
    ensures
        !occurs(s, w),
        !occurs_separate(s, w),
{
    assert forall|k: int| !occurs_at(s, w, k) by {
        if occurs_at(s, w, k) {
            assert(s.subrange(k, k + w.len())[p] == s[k + p]);
        }
    }
}

proof fn lemma_words()
    ensures
        "kuka"@ == seq!['k', 'u', 'k', 'a'],
        "comau"@ == seq!['c', 'o', 'm', 'a', 'u'],
        "franka"@ == seq!['f', 'r', 'a', 'n', 'k', 'a'],
        "emika"@ == seq!['e', 'm', 'i', 'k', 'a'],
        "panda"@ == seq!['p', 'a', 'n', 'd', 'a'],
        "universal"@ == seq!['u', 'n', 'i', 'v', 'e', 'r', 's', 'a', 'l'],
        "ur"@ == seq!['u', 'r'],
        "amr"@ == seq!['a', 'm', 'r'],
        "agv"@ == seq!['a', 'g', 'v'],
        "mobile"@ == seq!['m', 'o', 'b', 'i', 'l', 'e'],
{
    reveal_strlit("kuka");
    reveal_strlit("comau");
    reveal_strlit("franka");
    reveal_strlit("emika");
    reveal_strlit("panda");
    reveal_strlit("universal");
    reveal_strlit("ur");
    reveal_strlit("amr");
    reveal_strlit("agv");
    reveal_strlit("mobile");
    assert("kuka"@ =~= seq!['k', 'u', 'k', 'a']);
    assert("comau"@ =~= seq!['c', 'o', 'm', 'a', 'u']);
    assert("franka"@ =~= seq!['f', 'r', 'a', 'n', 'k', 'a']);
    assert("emika"@ =~= seq!['e', 'm', 'i', 'k', 'a']);
    assert("panda"@ =~= seq!['p', 'a', 'n', 'd', 'a']);
    assert("universal"@ =~= seq!['u', 'n', 'i', 'v', 'e', 'r', 's', 'a', 'l']);
    assert("ur"@ =~= seq!['u', 'r']);
    assert("amr"@ =~= seq!['a', 'm', 'r']);
    assert("agv"@ =~= seq!['a', 'g', 'v']);
    assert("mobile"@ =~= seq!['m', 'o', 'b', 'i', 'l', 'e']);
}

/// The label of a brand, in the `brand` field of a configuration, selects that brand.
pub proof fn law_label_selects_its_brand(b: RobotBrand)
    ensures
        brand_of(b.label_text()) == b,
{
    lemma_words();
    let s = lowered(b.label_text());
    match b {
        RobotBrand::Kuka => {
            reveal_strlit("KUKA");
            assert(s =~= "kuka"@);
            assert(s.subrange(0, 4) =~= "kuka"@);
            assert(occurs_at(s, "kuka"@, 0));
        },
        RobotBrand::Comau => {
            reveal_strlit("COMAU");
            assert(s =~= "comau"@);
            lemma_absent(s, "kuka"@, 0);
            assert(s.subrange(0, 5) =~= "comau"@);
            assert(occurs_at(s, "comau"@, 0));
        },
        RobotBrand::FrankaEmika => {
            reveal_strlit("FRANKA-EMIKA");
            assert(s =~= seq!['f', 'r', 'a', 'n', 'k', 'a', '-', 'e', 'm', 'i', 'k', 'a']);
            lemma_absent(s, "kuka"@, 1);
            lemma_absent(s, "comau"@, 0);
            assert(s.subrange(0, 6) =~= "franka"@);
            assert(occurs_at(s, "franka"@, 0));
        },
        RobotBrand::UniversalRobots => {
            reveal_strlit("UNIVERSAL-ROBOTS");
            assert(s =~= "universal"@ + seq!['-', 'r', 'o', 'b', 'o', 't', 's']);
            lemma_absent(s, "kuka"@, 0);
            lemma_absent(s, "comau"@, 0);
            lemma_absent(s, "franka"@, 0);
            lemma_absent(s, "emika"@, 1);
            lemma_absent(s, "panda"@, 0);
            assert(s.subrange(0, 9) =~= "universal"@);
            assert(occurs_at(s, "universal"@, 0));
        },
        RobotBrand::Amr => {
            reveal_strlit("AMR");
            assert(s =~= "amr"@);
            lemma_absent(s, "kuka"@, 0);
            lemma_absent(s, "comau"@, 0);
            lemma_absent(s, "franka"@, 0);
            lemma_absent(s, "emika"@, 0);
            lemma_absent(s, "panda"@, 0);
            lemma_absent(s, "universal"@, 0);
            lemma_absent(s, "ur"@, 0);
            assert(s.subrange(0, 3) =~= "amr"@);
            assert(occurs_at(s, "amr"@, 0));
        },
        RobotBrand::Generic => {
            reveal_strlit("GENERIC");
            assert(s =~= seq!['g', 'e', 'n', 'e', 'r', 'i', 'c']);
            lemma_absent(s, "kuka"@, 0);
            lemma_absent(s, "comau"@, 1);
            lemma_absent(s, "franka"@, 0);
            lemma_absent(s, "emika"@, 1);
            lemma_absent(s, "panda"@, 0);
            lemma_absent(s, "universal"@, 0);
            lemma_absent(s, "ur"@, 0);
            lemma_absent(s, "amr"@, 0);
            lemma_absent(s, "agv"@, 0);
            lemma_absent(s, "mobile"@, 0);
        },
    }
}

/// Each word selects its brand, unless the name also has a word of a brand before it.
pub proof fn law_words_select_their_brand(name: Seq<char>)
    ensures
        ({
            let b = brand_of(name);
            let franka = mentions(name, "franka") || mentions(name, "emika") || mentions(
                name,
                "panda",
            );
            let universal = mentions(name, "universal") || names(name, "ur");
            let mobile = mentions(name, "amr") || mentions(name, "agv") || mentions(name, "mobile");
            &&& b == RobotBrand::Kuka <==> mentions(name, "kuka")
            &&& mentions(name, "comau") ==> b == RobotBrand::Comau || b == RobotBrand::Kuka
            &&& franka ==> b == RobotBrand::FrankaEmika || mentions(name, "kuka") || mentions(
                name,
                "comau",
            )
            &&& universal ==> b == RobotBrand::UniversalRobots || b == RobotBrand::Kuka || b
                == RobotBrand::Comau || franka
            &&& mobile ==> b != RobotBrand::Generic
            &&& b == RobotBrand::Comau ==> mentions(name, "comau")
            &&& b == RobotBrand::FrankaEmika ==> franka
            &&& b == RobotBrand::UniversalRobots ==> universal && !franka
            &&& b == RobotBrand::Amr ==> mobile && !universal && !franka
        }),
{
}

/// A name without its case, and with anything around the word, still selects the brand: the
/// word of the first brand wins wherever it stands.
pub proof fn law_first_brand_wins(before: Seq<char>, behind: Seq<char>)
    ensures
        brand_of(before + "kuka"@ + behind) == RobotBrand::Kuka,
        brand_of(before + "KUKA"@ + behind) == RobotBrand::Kuka,
{
    lemma_words();
    reveal_strlit("KUKA");
    let k = before.len() as int;
    let small = lowered(before + "kuka"@ + behind);
    let large = lowered(before + "KUKA"@ + behind);
    assert(small.subrange(k, k + 4) =~= "kuka"@);
    assert(large.subrange(k, k + 4) =~= "kuka"@);
    assert(occurs_at(small, "kuka"@, k));
    assert(occurs_at(large, "kuka"@, k));
}

/// The suggested transport and the joints of each brand: controllers on the network speak TCP,
/// Franka robots, with seven joints, UDP, and the others a serial line.
pub proof fn law_brand_profile(b: RobotBrand)
    ensures
        b.transport_text() == "Udp"@ <==> b == RobotBrand::FrankaEmika,
        b.transport_text() == "Serial"@ <==> b == RobotBrand::Generic || b == RobotBrand::Amr,
        b.dof() == 7 <==> b == RobotBrand::FrankaEmika,
        b.dof() == 4 <==> b == RobotBrand::Amr,
        4 <= b.dof() <= 7 && b.dof() != 5,
{
    reveal_strlit("Udp");
    reveal_strlit("Tcp");
    reveal_strlit("Serial");
    assert("Udp"@[0] == 'U' && "Tcp"@[0] == 'T' && "Serial"@[0] == 'S');
}

} // verus!
