use vstd::prelude::*;

verus! {

pub const SAVEWARP_COUNT: usize = 16;

/// The place a save-and-reload returns the player to. Named after the region it leads to.
#[derive(Clone, Copy, Debug, PartialEq, Eq, Hash, Structural)]
pub enum Savewarp {
    Overworld,
    DekuTree,
    DodongosCavern,
    JabuJabusBelly,
    ForestTemple,
    FireTemple,
    WaterTemple,
    ShadowTemple,
    SpiritTemple,
    IceCavern,
    BottomOfTheWell,
    GerudoTrainingGround,
    InsideGanonsCastle,
    GanonsTower,
    KfLinksHouse,
    ThievesHideout,
}

impl Savewarp {
    /// Position of this value in the fixed enumeration order.
    pub open spec fn spec_index(self) -> int {
        match self {
            Savewarp::Overworld => 0,
            Savewarp::DekuTree => 1,
            Savewarp::DodongosCavern => 2,
            Savewarp::JabuJabusBelly => 3,
            Savewarp::ForestTemple => 4,
            Savewarp::FireTemple => 5,
            Savewarp::WaterTemple => 6,
            Savewarp::ShadowTemple => 7,
            Savewarp::SpiritTemple => 8,
            Savewarp::IceCavern => 9,
            Savewarp::BottomOfTheWell => 10,
            Savewarp::GerudoTrainingGround => 11,
            Savewarp::InsideGanonsCastle => 12,
            Savewarp::GanonsTower => 13,
            Savewarp::KfLinksHouse => 14,
            Savewarp::ThievesHideout => 15,
        }
    }

    /// The value at position `i` of the enumeration order.
    pub open spec fn spec_at(i: int) -> Savewarp {
        if i == 0 { Savewarp::Overworld }
        else if i == 1 { Savewarp::DekuTree }
        else if i == 2 { Savewarp::DodongosCavern }
        else if i == 3 { Savewarp::JabuJabusBelly }
        else if i == 4 { Savewarp::ForestTemple }
        else if i == 5 { Savewarp::FireTemple }
        else if i == 6 { Savewarp::WaterTemple }
        else if i == 7 { Savewarp::ShadowTemple }
        else if i == 8 { Savewarp::SpiritTemple }
        else if i == 9 { Savewarp::IceCavern }
        else if i == 10 { Savewarp::BottomOfTheWell }
        else if i == 11 { Savewarp::GerudoTrainingGround }
        else if i == 12 { Savewarp::InsideGanonsCastle }
        else if i == 13 { Savewarp::GanonsTower }
        else if i == 14 { Savewarp::KfLinksHouse }
        else { Savewarp::ThievesHideout }
    }

    pub fn index(&self) -> (r: usize)
        ensures
            r as int == self.spec_index(),
            r < SAVEWARP_COUNT,
    {
        match self {
            Savewarp::Overworld => 0,
            Savewarp::DekuTree => 1,
            Savewarp::DodongosCavern => 2,
            Savewarp::JabuJabusBelly => 3,
            Savewarp::ForestTemple => 4,
            Savewarp::FireTemple => 5,
            Savewarp::WaterTemple => 6,
            Savewarp::ShadowTemple => 7,
            Savewarp::SpiritTemple => 8,
            Savewarp::IceCavern => 9,
            Savewarp::BottomOfTheWell => 10,
            Savewarp::GerudoTrainingGround => 11,
            Savewarp::InsideGanonsCastle => 12,
            Savewarp::GanonsTower => 13,
            Savewarp::KfLinksHouse => 14,
            Savewarp::ThievesHideout => 15,
        }
    }

    pub fn at(i: usize) -> (r: Savewarp)
        requires
            i < SAVEWARP_COUNT,
        ensures
            r.spec_index() == i as int,
            r == Self::spec_at(i as int),
    {
        if i == 0 {
            Savewarp::Overworld
        } else if i == 1 {
            Savewarp::DekuTree
        } else if i == 2 {
            Savewarp::DodongosCavern
        } else if i == 3 {
            Savewarp::JabuJabusBelly
        } else if i == 4 {
            Savewarp::ForestTemple
        } else if i == 5 {
            Savewarp::FireTemple
        } else if i == 6 {
            Savewarp::WaterTemple
        } else if i == 7 {
            Savewarp::ShadowTemple
        } else if i == 8 {
            Savewarp::SpiritTemple
        } else if i == 9 {
            Savewarp::IceCavern
        } else if i == 10 {
            Savewarp::BottomOfTheWell
        } else if i == 11 {
            Savewarp::GerudoTrainingGround
        } else if i == 12 {
            Savewarp::InsideGanonsCastle
        } else if i == 13 {
            Savewarp::GanonsTower
        } else if i == 14 {
            Savewarp::KfLinksHouse
        } else {
            Savewarp::ThievesHideout
        }
    }
}

/// How the time of day behaves in a region.
#[derive(Clone, Copy, Debug, PartialEq, Eq, Hash, Structural)]
pub enum TimeOfDayBehavior {
    /// Cannot alter time of day in this region. Used for dungeons as well as helper regions like Root.
    Unaltered,
    /// Time does not pass but can be set to noon or midnight using the Sun's Song. This reloads the scene.
    Static,
    /// Time passes normally and can be set to any value simply by waiting.
    Passes,
    /// Special behavior for Ganon's castle grounds which force time of day to Dampe time.
    OutsideGanonsCastle,
}

pub const ITEM_COUNT: usize = 46;

/// Something the player can collect.
#[derive(Clone, Copy, Debug, PartialEq, Eq, Hash, Structural)]
pub enum Item {
    Arrows,
    Bombs,
    BombBag,
    BoleroOfFire,
    Boomerang,
    Bottle,
    Bugs,
    Cojiro,
    DekuNuts,
    DekuSeeds,
    DekuShield,
    DekuSticks,
    DinsFire,
    EponasSong,
    GoldSkulltulaToken,
    Hookshot,
    HoverBoots,
    KokiriSword,
    MagicBean,
    MagicMeter,
    MagicRefills,
    MinuetOfForest,
    NocturneOfShadow,
    Ocarina,
    OcarinaAButton,
    OcarinaCDownButton,
    OcarinaCLeftButton,
    OcarinaCRightButton,
    OcarinaCUpButton,
    OddMushroom,
    OddPotion,
    PieceOfHeart,
    PoachersSaw,
    PreludeOfLight,
    RecoveryHearts,
    RequiemOfSpirit,
    SariasSong,
    Scale,
    SerenadeOfWater,
    Slingshot,
    SongOfStorms,
    SongOfTime,
    StoneOfAgony,
    SunsSong,
    Wallet,
    ZeldasLullaby,
}

impl Item {
    /// Position of this value in the fixed enumeration order.
    pub open spec fn spec_index(self) -> int {
        match self {
            Item::Arrows => 0,
            Item::Bombs => 1,
            Item::BombBag => 2,
            Item::BoleroOfFire => 3,
            Item::Boomerang => 4,
            Item::Bottle => 5,
            Item::Bugs => 6,
            Item::Cojiro => 7,
            Item::DekuNuts => 8,
            Item::DekuSeeds => 9,
            Item::DekuShield => 10,
            Item::DekuSticks => 11,
            Item::DinsFire => 12,
            Item::EponasSong => 13,
            Item::GoldSkulltulaToken => 14,
            Item::Hookshot => 15,
            Item::HoverBoots => 16,
            Item::KokiriSword => 17,
            Item::MagicBean => 18,
            Item::MagicMeter => 19,
            Item::MagicRefills => 20,
            Item::MinuetOfForest => 21,
            Item::NocturneOfShadow => 22,
            Item::Ocarina => 23,
            Item::OcarinaAButton => 24,
            Item::OcarinaCDownButton => 25,
            Item::OcarinaCLeftButton => 26,
            Item::OcarinaCRightButton => 27,
            Item::OcarinaCUpButton => 28,
            Item::OddMushroom => 29,
            Item::OddPotion => 30,
            Item::PieceOfHeart => 31,
            Item::PoachersSaw => 32,
            Item::PreludeOfLight => 33,
            Item::RecoveryHearts => 34,
            Item::RequiemOfSpirit => 35,
            Item::SariasSong => 36,
            Item::Scale => 37,
            Item::SerenadeOfWater => 38,
            Item::Slingshot => 39,
            Item::SongOfStorms => 40,
            Item::SongOfTime => 41,
            Item::StoneOfAgony => 42,
            Item::SunsSong => 43,
            Item::Wallet => 44,
            Item::ZeldasLullaby => 45,
        }
    }

    /// The value at position `i` of the enumeration order.
    pub open spec fn spec_at(i: int) -> Item {
        if i == 0 { Item::Arrows }
        else if i == 1 { Item::Bombs }
        else if i == 2 { Item::BombBag }
        else if i == 3 { Item::BoleroOfFire }
        else if i == 4 { Item::Boomerang }
        else if i == 5 { Item::Bottle }
        else if i == 6 { Item::Bugs }
        else if i == 7 { Item::Cojiro }
        else if i == 8 { Item::DekuNuts }
        else if i == 9 { Item::DekuSeeds }
        else if i == 10 { Item::DekuShield }
        else if i == 11 { Item::DekuSticks }
        else if i == 12 { Item::DinsFire }
        else if i == 13 { Item::EponasSong }
        else if i == 14 { Item::GoldSkulltulaToken }
        else if i == 15 { Item::Hookshot }
        else if i == 16 { Item::HoverBoots }
        else if i == 17 { Item::KokiriSword }
        else if i == 18 { Item::MagicBean }
        else if i == 19 { Item::MagicMeter }
        else if i == 20 { Item::MagicRefills }
        else if i == 21 { Item::MinuetOfForest }
        else if i == 22 { Item::NocturneOfShadow }
        else if i == 23 { Item::Ocarina }
        else if i == 24 { Item::OcarinaAButton }
        else if i == 25 { Item::OcarinaCDownButton }
        else if i == 26 { Item::OcarinaCLeftButton }
        else if i == 27 { Item::OcarinaCRightButton }
        else if i == 28 { Item::OcarinaCUpButton }
        else if i == 29 { Item::OddMushroom }
        else if i == 30 { Item::OddPotion }
        else if i == 31 { Item::PieceOfHeart }
        else if i == 32 { Item::PoachersSaw }
        else if i == 33 { Item::PreludeOfLight }
        else if i == 34 { Item::RecoveryHearts }
        else if i == 35 { Item::RequiemOfSpirit }
        else if i == 36 { Item::SariasSong }
        else if i == 37 { Item::Scale }
        else if i == 38 { Item::SerenadeOfWater }
        else if i == 39 { Item::Slingshot }
        else if i == 40 { Item::SongOfStorms }
        else if i == 41 { Item::SongOfTime }
        else if i == 42 { Item::StoneOfAgony }
        else if i == 43 { Item::SunsSong }
        else if i == 44 { Item::Wallet }
        else { Item::ZeldasLullaby }
    }

    pub fn index(&self) -> (r: usize)
        ensures
            r as int == self.spec_index(),
            r < ITEM_COUNT,
    {
        match self {
            Item::Arrows => 0,
            Item::Bombs => 1,
            Item::BombBag => 2,
            Item::BoleroOfFire => 3,
            Item::Boomerang => 4,
            Item::Bottle => 5,
            Item::Bugs => 6,
            Item::Cojiro => 7,
            Item::DekuNuts => 8,
            Item::DekuSeeds => 9,
            Item::DekuShield => 10,
            Item::DekuSticks => 11,
            Item::DinsFire => 12,
            Item::EponasSong => 13,
            Item::GoldSkulltulaToken => 14,
            Item::Hookshot => 15,
            Item::HoverBoots => 16,
            Item::KokiriSword => 17,
            Item::MagicBean => 18,
            Item::MagicMeter => 19,
            Item::MagicRefills => 20,
            Item::MinuetOfForest => 21,
            Item::NocturneOfShadow => 22,
            Item::Ocarina => 23,
            Item::OcarinaAButton => 24,
            Item::OcarinaCDownButton => 25,
            Item::OcarinaCLeftButton => 26,
            Item::OcarinaCRightButton => 27,
            Item::OcarinaCUpButton => 28,
            Item::OddMushroom => 29,
            Item::OddPotion => 30,
            Item::PieceOfHeart => 31,
            Item::PoachersSaw => 32,
            Item::PreludeOfLight => 33,
            Item::RecoveryHearts => 34,
            Item::RequiemOfSpirit => 35,
            Item::SariasSong => 36,
            Item::Scale => 37,
            Item::SerenadeOfWater => 38,
            Item::Slingshot => 39,
            Item::SongOfStorms => 40,
            Item::SongOfTime => 41,
            Item::StoneOfAgony => 42,
            Item::SunsSong => 43,
            Item::Wallet => 44,
            Item::ZeldasLullaby => 45,
        }
    }

    pub fn at(i: usize) -> (r: Item)
        requires
            i < ITEM_COUNT,
        ensures
            r.spec_index() == i as int,
            r == Self::spec_at(i as int),
    {
        if i == 0 {
            Item::Arrows
        } else if i == 1 {
            Item::Bombs
        } else if i == 2 {
            Item::BombBag
        } else if i == 3 {
            Item::BoleroOfFire
        } else if i == 4 {
            Item::Boomerang
        } else if i == 5 {
            Item::Bottle
        } else if i == 6 {
            Item::Bugs
        } else if i == 7 {
            Item::Cojiro
        } else if i == 8 {
            Item::DekuNuts
        } else if i == 9 {
            Item::DekuSeeds
        } else if i == 10 {
            Item::DekuShield
        } else if i == 11 {
            Item::DekuSticks
        } else if i == 12 {
            Item::DinsFire
        } else if i == 13 {
            Item::EponasSong
        } else if i == 14 {
            Item::GoldSkulltulaToken
        } else if i == 15 {
            Item::Hookshot
        } else if i == 16 {
            Item::HoverBoots
        } else if i == 17 {
            Item::KokiriSword
        } else if i == 18 {
            Item::MagicBean
        } else if i == 19 {
            Item::MagicMeter
        } else if i == 20 {
            Item::MagicRefills
        } else if i == 21 {
            Item::MinuetOfForest
        } else if i == 22 {
            Item::NocturneOfShadow
        } else if i == 23 {
            Item::Ocarina
        } else if i == 24 {
            Item::OcarinaAButton
        } else if i == 25 {
            Item::OcarinaCDownButton
        } else if i == 26 {
            Item::OcarinaCLeftButton
        } else if i == 27 {
            Item::OcarinaCRightButton
        } else if i == 28 {
            Item::OcarinaCUpButton
        } else if i == 29 {
            Item::OddMushroom
        } else if i == 30 {
            Item::OddPotion
        } else if i == 31 {
            Item::PieceOfHeart
        } else if i == 32 {
            Item::PoachersSaw
        } else if i == 33 {
            Item::PreludeOfLight
        } else if i == 34 {
            Item::RecoveryHearts
        } else if i == 35 {
            Item::RequiemOfSpirit
        } else if i == 36 {
            Item::SariasSong
        } else if i == 37 {
            Item::Scale
        } else if i == 38 {
            Item::SerenadeOfWater
        } else if i == 39 {
            Item::Slingshot
        } else if i == 40 {
            Item::SongOfStorms
        } else if i == 41 {
            Item::SongOfTime
        } else if i == 42 {
            Item::StoneOfAgony
        } else if i == 43 {
            Item::SunsSong
        } else if i == 44 {
            Item::Wallet
        } else {
            Item::ZeldasLullaby
        }
    }
}
} // verus!
