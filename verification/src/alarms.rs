//! Value alarms: a comparator and a threshold bound to one live metric of
//! an exporter, checked on demand.

use vstd::prelude::*;

use crate::counters::{spec_value, CounterType};
use crate::errors::ProxyErr;

verus! {

/// The comparator of an alarm, with its threshold.
#[derive(Clone, Copy, Debug, PartialEq, Eq, Structural)]
pub enum AlarmOperator {
    Equal(i64),
    Less(i64),
    More(i64),
}

/// Whether an alarm fires on the given reported value.
pub open spec fn alarm_applies(op: AlarmOperator, value: int) -> bool {
    match op {
        AlarmOperator::Equal(v) => v == value,
        AlarmOperator::Less(v) => v > value,
        AlarmOperator::More(v) => v < value,
    }
}

impl AlarmOperator {
    /// Parse the comparator of an alarm definition.
    pub fn from_op(op: &str, value: i64) -> (r: Result<AlarmOperator, ProxyErr>)
        ensures
            op@ == "="@ ==> r == Result::<AlarmOperator, ProxyErr>::Ok(AlarmOperator::Equal(value)),
            op@ == "<"@ ==> r == Result::<AlarmOperator, ProxyErr>::Ok(AlarmOperator::Less(value)),
            op@ == ">"@ ==> r == Result::<AlarmOperator, ProxyErr>::Ok(AlarmOperator::More(value)),
            op@ != "="@ && op@ != "<"@ && op@ != ">"@ ==> r is Err,
    {
        proof {
            reveal_strlit("=");
            reveal_strlit("<");
            reveal_strlit(">");
            assert("="@ =~= seq!['=']);
            assert("<"@ =~= seq!['<']);
            assert(">"@ =~= seq!['>']);
            assert("="@[0] != "<"@[0] && "="@[0] != ">"@[0] && "<"@[0] != ">"@[0]);
        }
        if crate::names::str_eq(op, "=") {
            Ok(AlarmOperator::Equal(value))
        } else if crate::names::str_eq(op, "<") {
            Ok(AlarmOperator::Less(value))
        } else if crate::names::str_eq(op, ">") {
            Ok(AlarmOperator::More(value))
        } else {
            Err(ProxyErr::new("No such operator, only has = < and >"))
        }
    }

    /// True when the alarm fires on the given counter value.
    pub fn apply(&self, val: &CounterType) -> (r: bool)
        ensures
            r == alarm_applies(*self, spec_value(*val)),
    {
        let value = val.value();
        match self {
            AlarmOperator::Equal(v) => *v == value,
            AlarmOperator::Less(v) => *v > value,
            AlarmOperator::More(v) => *v < value,
        }
    }
}

/// An alarm: a name, the metric it watches, and its comparator.
#[derive(Debug, PartialEq)]
pub struct ValueAlarm {
    pub name: String,
    pub metric: String,
    pub op: AlarmOperator,
}

impl Clone for ValueAlarm {
    /// An equal copy of this alarm.
    fn clone(&self) -> (r: Self)
        ensures
            r == *self,
    {
        ValueAlarm { name: self.name.clone(), metric: self.metric.clone(), op: self.op }
    }
}

impl ValueAlarm {
    /// Define an alarm on `metric` with the comparator written in `op`.
    pub fn new(name: &String, metric: &String, op: &str, val: i64) -> (r: Result<
        ValueAlarm,
        ProxyErr,
    >)
        ensures
            r is Ok <==> op@ == "="@ || op@ == "<"@ || op@ == ">"@,
            r is Ok ==> r->Ok_0.name@ == name@ && r->Ok_0.metric@ == metric@,
            r is Ok && op@ == "="@ ==> r->Ok_0.op == AlarmOperator::Equal(val),
            r is Ok && op@ == "<"@ ==> r->Ok_0.op == AlarmOperator::Less(val),
            r is Ok && op@ == ">"@ ==> r->Ok_0.op == AlarmOperator::More(val),
    {
        proof {
            reveal_strlit("=");
            reveal_strlit("<");
            reveal_strlit(">");
        }
        let alop = AlarmOperator::from_op(op, val)?;
        Ok(ValueAlarm { name: name.clone(), metric: metric.clone(), op: alop })
    }
}

/// The record emitted for an alarm whose condition held when checked.
#[derive(Debug, PartialEq)]
pub struct ValueAlarmTrigger {
    pub name: String,
    pub metric: String,
    pub operator: AlarmOperator,
    pub current: i64,
    pub active: bool,
}

impl Clone for ValueAlarmTrigger {
    /// An equal copy of this trigger record.
    fn clone(&self) -> (r: Self)
        ensures
            r == *self,
    {
        ValueAlarmTrigger {
            name: self.name.clone(),
            metric: self.metric.clone(),
            operator: self.operator,
            current: self.current,
            active: self.active,
        }
    }
}

} // verus!
