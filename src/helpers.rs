use vstd::prelude::*;
use crate::common::Item;
use crate::logic::{Condition, LogicExpr};

verus! {

/// Numbers of the standard logic helpers in `standard_helpers`.
pub const LONGSHOT: usize = 0;
pub const CAN_CHILD_ATTACK: usize = 1;
pub const CAN_CUT_SHRUBS: usize = 2;
pub const CAN_DIVE: usize = 3;
pub const CAN_OPEN_STORM_GROTTO: usize = 4;
pub const CAN_PLANT_BEAN: usize = 5;
pub const HAS_EXPLOSIVES: usize = 6;
pub const HELPER_COUNT: usize = 7;

pub open spec fn and_expr(a: LogicExpr, b: LogicExpr) -> LogicExpr {
    LogicExpr::And(Box::new(a), Box::new(b))
}

pub open spec fn or_expr(a: LogicExpr, b: LogicExpr) -> LogicExpr {
    LogicExpr::Or(Box::new(a), Box::new(b))
}

fn and(a: LogicExpr, b: LogicExpr) -> (r: LogicExpr)
    ensures
        r == and_expr(a, b),
{
    LogicExpr::And(Box::new(a), Box::new(b))
}

fn or(a: LogicExpr, b: LogicExpr) -> (r: LogicExpr)
    ensures
        r == or_expr(a, b),
{
    LogicExpr::Or(Box::new(a), Box::new(b))
}

pub open spec fn can_child_attack_expr() -> LogicExpr {
    and_expr(
        LogicExpr::Condition(Condition::IsChild),
        or_expr(
            or_expr(
                or_expr(
                    or_expr(
                        or_expr(LogicExpr::Item(Item::Slingshot), LogicExpr::Item(Item::Boomerang)),
                        LogicExpr::Item(Item::DekuSticks),
                    ),
                    LogicExpr::Item(Item::KokiriSword),
                ),
                LogicExpr::Helper(HAS_EXPLOSIVES),
            ),
            LogicExpr::Item(Item::DinsFire),
        ),
    )
}

pub open spec fn can_cut_shrubs_expr() -> LogicExpr {
    or_expr(
        or_expr(
            or_expr(
                or_expr(LogicExpr::Condition(Condition::IsAdult), LogicExpr::Item(Item::DekuSticks)),
                LogicExpr::Item(Item::KokiriSword),
            ),
            LogicExpr::Item(Item::Boomerang),
        ),
        LogicExpr::Helper(HAS_EXPLOSIVES),
    )
}

pub open spec fn can_open_storm_grotto_expr() -> LogicExpr {
    and_expr(LogicExpr::Item(Item::SongOfStorms), LogicExpr::Item(Item::StoneOfAgony))
}

pub open spec fn can_plant_bean_expr() -> LogicExpr {
    and_expr(LogicExpr::Condition(Condition::IsChild), LogicExpr::Count(Item::MagicBean, 10))
}

/// The longshot is the second hookshot.
#[allow(non_snake_case)]
pub fn Longshot() -> (r: LogicExpr)
    ensures
        r == LogicExpr::Count(Item::Hookshot, 2),
{
    LogicExpr::Count(Item::Hookshot, 2)
}

pub fn can_child_attack() -> (r: LogicExpr)
    ensures
        r == can_child_attack_expr(),
{
    and(
        LogicExpr::Condition(Condition::IsChild),
        or(
            or(
                or(
                    or(
                        or(LogicExpr::Item(Item::Slingshot), LogicExpr::Item(Item::Boomerang)),
                        LogicExpr::Item(Item::DekuSticks),
                    ),
                    LogicExpr::Item(Item::KokiriSword),
                ),
                LogicExpr::Helper(HAS_EXPLOSIVES),
            ),
            LogicExpr::Item(Item::DinsFire),
        ),
    )
}

pub fn can_cut_shrubs() -> (r: LogicExpr)
    ensures
        r == can_cut_shrubs_expr(),
{
    or(
        or(
            or(
                or(LogicExpr::Condition(Condition::IsAdult), LogicExpr::Item(Item::DekuSticks)),
                LogicExpr::Item(Item::KokiriSword),
            ),
            LogicExpr::Item(Item::Boomerang),
        ),
        LogicExpr::Helper(HAS_EXPLOSIVES),
    )
}

pub fn can_dive() -> (r: LogicExpr)
    ensures
        r == LogicExpr::Item(Item::Scale),
{
    LogicExpr::Item(Item::Scale)
}

pub fn can_open_storm_grotto() -> (r: LogicExpr)
    ensures
        r == can_open_storm_grotto_expr(),
{
    and(LogicExpr::Item(Item::SongOfStorms), LogicExpr::Item(Item::StoneOfAgony))
}

pub fn can_plant_bean() -> (r: LogicExpr)
    ensures
        r == can_plant_bean_expr(),
{
    and(LogicExpr::Condition(Condition::IsChild), LogicExpr::Count(Item::MagicBean, 10))
}

pub fn has_explosives() -> (r: LogicExpr)
    ensures
        r == LogicExpr::Item(Item::BombBag),
{
    LogicExpr::Item(Item::BombBag)
}

/// The standard helpers, numbered as the constants above say.
pub fn standard_helpers() -> (r: Vec<LogicExpr>)
    ensures
        r@ == seq![
            LogicExpr::Count(Item::Hookshot, 2),
            can_child_attack_expr(),
            can_cut_shrubs_expr(),
            LogicExpr::Item(Item::Scale),
            can_open_storm_grotto_expr(),
            can_plant_bean_expr(),
            LogicExpr::Item(Item::BombBag),
        ],
{
    let mut r: Vec<LogicExpr> = Vec::new();
    r.push(Longshot());
    r.push(can_child_attack());
    r.push(can_cut_shrubs());
    r.push(can_dive());
    r.push(can_open_storm_grotto());
    r.push(can_plant_bean());
    r.push(has_explosives());
    assert(r@ =~= seq![
        LogicExpr::Count(Item::Hookshot, 2),
        can_child_attack_expr(),
        can_cut_shrubs_expr(),
        LogicExpr::Item(Item::Scale),
        can_open_storm_grotto_expr(),
        can_plant_bean_expr(),
        LogicExpr::Item(Item::BombBag),
    ]);
    r
}

} // verus!
