//! Counters of one test run, exportable as a JSON object.

use crate::utils::{dec_digits, u64_to_string};
use vstd::prelude::*;
use vstd::string::StringExecFns;

verus! {

/// Counters of one test run.
#[derive(Clone, PartialEq, Eq, Structural)]
pub struct TestResult {
    pub test_num: u32,
    pub steps: u32,
    pub test_packet_costs: u32,
    pub comm_packet_costs: u32,
    pub deployed_test_packets: u32,
    pub received_test_packets: u32,
}

/// The JSON rendering of a test result.
pub open spec fn json_of(r: TestResult) -> Seq<char> {
    "{"@ + "\"test_num\": "@ + dec_digits(r.test_num as nat) + ",\"test_packet_costs\": "@
        + dec_digits(r.test_packet_costs as nat) + ",\"comm_packet_costs\": "@ + dec_digits(
        r.comm_packet_costs as nat,
    ) + ",\"deployed_test_packets\": "@ + dec_digits(r.deployed_test_packets as nat)
        + ",\"received_test_packets\": "@ + dec_digits(r.received_test_packets as nat) + "}"@
}

impl TestResult {
    pub fn new() -> (r: TestResult)
        ensures
            r == (TestResult {
                test_num: 0,
                steps: 0,
                test_packet_costs: 0,
                comm_packet_costs: 0,
                deployed_test_packets: 0,
                received_test_packets: 0,
            }),
    {
        TestResult {
            test_num: 0,
            steps: 0,
            test_packet_costs: 0,
            comm_packet_costs: 0,
            deployed_test_packets: 0,
            received_test_packets: 0,
        }
    }

    pub fn clear(&mut self)
        ensures
            *final(self) == TestResult::new_spec(),
    {
        *self = TestResult::new();
    }

    /// The value `new` returns.
    pub open spec fn new_spec() -> TestResult {
        TestResult {
            test_num: 0,
            steps: 0,
            test_packet_costs: 0,
            comm_packet_costs: 0,
            deployed_test_packets: 0,
            received_test_packets: 0,
        }
    }

    /// The counters as one JSON object.
    pub fn to_json(&self) -> (r: String)
        ensures
            r@ == json_of(*self),
    {
        let mut ret = String::from_str("{");
        ret.append("\"test_num\": ");
        ret.append(u64_to_string(self.test_num as u64).as_str());
        ret.append(",\"test_packet_costs\": ");
        ret.append(u64_to_string(self.test_packet_costs as u64).as_str());
        ret.append(",\"comm_packet_costs\": ");
        ret.append(u64_to_string(self.comm_packet_costs as u64).as_str());
        ret.append(",\"deployed_test_packets\": ");
        ret.append(u64_to_string(self.deployed_test_packets as u64).as_str());
        ret.append(",\"received_test_packets\": ");
        ret.append(u64_to_string(self.received_test_packets as u64).as_str());
        ret.append("}");
        ret
    }
}

} // verus!
