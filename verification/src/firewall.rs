//! The host's routing the tunnel needs: which commands set it up and which
//! take it down. The commands are planned here and run elsewhere.

use crate::conf::{
    cidr_text, values_of, Cidr, CidrValue, ClientPeer, Conf, Network, DEFAULT_FWMARK,
};
use crate::text::{number_text, push_number, string_of};
use vstd::prelude::*;
use vstd::string::StringExecFns;

verus! {

/// A command: the program and its arguments, in order.
pub type Command = Vec<String>;

/// The words of a command.
pub open spec fn words_view(words: Seq<String>) -> Seq<Seq<char>> {
    Seq::new(words.len(), |i: int| words[i]@)
}

/// The words of each command of a plan.
pub open spec fn plan_view(plan: Seq<Command>) -> Seq<Seq<Seq<char>>> {
    Seq::new(plan.len(), |i: int| words_view(plan[i]@))
}

/// The routing table that the tunnel's routes go into.
pub open spec fn routing_table() -> Seq<char> {
    "19988"@
}

/// The command that adds or deletes the route of one network through the
/// TUN device, in the tunnel's routing table.
pub open spec fn route_command(action: Seq<char>, tun: Seq<char>, c: CidrValue) -> Seq<Seq<char>> {
    seq![
        "ip"@,
        if c.0 {
            "-6"@
        } else {
            "-4"@
        },
        "route"@,
        action,
        cidr_text(c),
        "dev"@,
        tun,
        "table"@,
        routing_table(),
    ]
}

/// The commands that add or delete the two rules of one address family:
/// traffic without the mark goes by the tunnel's table, and the main table
/// serves all but its default route.
pub open spec fn rule_commands(action: Seq<char>, family: Seq<char>, fwmark: u32) -> Seq<
    Seq<Seq<char>>,
> {
    seq![
        seq![
            "ip"@,
            family,
            "rule"@,
            action,
            "not"@,
            "fwmark"@,
            number_text(fwmark as nat, 10),
            "table"@,
            routing_table(),
        ],
        seq!["ip"@, family, "rule"@, action, "table"@, "main"@, "suppress_prefixlength"@, "0"@],
    ]
}

/// The networks of all clients, in the order of the configuration.
pub open spec fn client_routes(clients: Seq<ClientPeer>) -> Seq<CidrValue>
    decreases clients.len(),
{
    if clients.len() == 0 {
        Seq::empty()
    } else {
        client_routes(clients.drop_last()) + values_of(clients.last().allowed_ips.values@)
    }
}

/// The networks that are routed through the tunnel: on a server those of
/// its clients, on a client those of its server.
pub open spec fn routes_of(network: Network) -> Seq<CidrValue> {
    match network {
        Network::Server { client, .. } => client_routes(client@),
        Network::Client { server, .. } => values_of(server.allowed_ips.values@),
    }
}

/// The routing mark as the configuration has it, or the default.
pub open spec fn mark_of(network: Network) -> u32 {
    match network.spec_fwmark() {
        Some(mark) => mark,
        None => DEFAULT_FWMARK,
    }
}

/// The commands that route the networks.
pub open spec fn route_commands(action: Seq<char>, tun: Seq<char>, routes: Seq<CidrValue>) -> Seq<
    Seq<Seq<char>>,
> {
    Seq::new(routes.len(), |i: int| route_command(action, tun, routes[i]))
}

/// The command that sets the DNS server of the TUN device, where the
/// configuration names one.
pub open spec fn dns_commands(network: Network) -> Seq<Seq<Seq<char>>> {
    match network.spec_dns() {
        Some(dns) => seq![seq!["resolvectl"@, "dns"@, network.spec_tun_name(), dns]],
        None => Seq::empty(),
    }
}

/// The commands that set the host up: a route for each network through
/// the TUN device, the rules of both address families, and the DNS server
/// where one is configured.
pub open spec fn up_plan(network: Network) -> Seq<Seq<Seq<char>>> {
    route_commands("add"@, network.spec_tun_name(), routes_of(network)) + rule_commands(
        "add"@,
        "-4"@,
        mark_of(network),
    ) + rule_commands("add"@, "-6"@, mark_of(network)) + dns_commands(network)
}

/// The commands that take the host's set-up down: the rules of both
/// address families are deleted, then the rule of the tunnel's table.
pub open spec fn down_plan(network: Network) -> Seq<Seq<Seq<char>>> {
    rule_commands("delete"@, "-4"@, mark_of(network)) + rule_commands(
        "delete"@,
        "-6"@,
        mark_of(network),
    ) + seq![seq!["ip"@, "rule"@, "delete"@, "table"@, routing_table()]]
}

/// A word of a command.
fn word(s: &str) -> (r: String)
    ensures
        r@ == s@,
{
    String::from_str(s)
}

/// A number as a word of a command.
fn number_word(n: u32) -> (r: String)
    ensures
        r@ == number_text(n as nat, 10),
{
    let mut out: Vec<char> = Vec::new();
    push_number(&mut out, n, 10);
    assert(out@ =~= number_text(n as nat, 10));
    string_of(&out)
}

/// Appends one command to a plan.
fn push_command(plan: &mut Vec<Command>, command: Command)
    ensures
        plan_view(final(plan)@) == plan_view(old(plan)@).push(words_view(command@)),
{
    let ghost before = plan@;
    plan.push(command);
    assert(plan_view(plan@) =~= plan_view(before).push(words_view(command@)));
}

/// The command that adds or deletes the route of one network through the
/// TUN device.
pub fn route_allowed_ip(action: &str, tun: &str, ip: Cidr) -> (r: Command)
    ensures
        words_view(r@) == route_command(action@, tun@, ip.value()),
{
    let mut c: Vec<String> = Vec::new();
    c.push(word("ip"));
    if ip.ip().is_ipv4() {
        c.push(word("-4"));
    } else {
        c.push(word("-6"));
    }
    c.push(word("route"));
    c.push(word(action));
    c.push(ip.to_string());
    c.push(word("dev"));
    c.push(word(tun));
    c.push(word("table"));
    c.push(word("19988"));
    assert(words_view(c@) =~= route_command(action@, tun@, ip.value()));
    c
}

/// Appends the two rules of one address family to a plan.
fn push_rules(plan: &mut Vec<Command>, action: &str, family: &str, fwmark: u32)
    ensures
        plan_view(final(plan)@) == plan_view(old(plan)@) + rule_commands(action@, family@, fwmark),
{
    let ghost before = plan_view(plan@);
    let mut a: Vec<String> = Vec::new();
    a.push(word("ip"));
    a.push(word(family));
    a.push(word("rule"));
    a.push(word(action));
    a.push(word("not"));
    a.push(word("fwmark"));
    a.push(number_word(fwmark));
    a.push(word("table"));
    a.push(word("19988"));
    assert(words_view(a@) =~= rule_commands(action@, family@, fwmark)[0]);
    push_command(plan, a);
    let mut b: Vec<String> = Vec::new();
    b.push(word("ip"));
    b.push(word(family));
    b.push(word("rule"));
    b.push(word(action));
    b.push(word("table"));
    b.push(word("main"));
    b.push(word("suppress_prefixlength"));
    b.push(word("0"));
    assert(words_view(b@) =~= rule_commands(action@, family@, fwmark)[1]);
    push_command(plan, b);
    assert(plan_view(plan@) =~= before + rule_commands(action@, family@, fwmark));
}

/// Appends the routes of the networks of a list to a plan.
fn push_routes(plan: &mut Vec<Command>, tun: &str, list: &Vec<Cidr>)
    ensures
        plan_view(final(plan)@) == plan_view(old(plan)@) + route_commands(
            "add"@,
            tun@,
            values_of(list@),
        ),
{
    let ghost before = plan_view(plan@);
    let ghost all = route_commands("add"@, tun@, values_of(list@));
    let mut i: usize = 0;
    assert(plan_view(plan@) =~= before + all.take(0));
    while i < list.len()
        invariant
            i <= list.len(),
            all == route_commands("add"@, tun@, values_of(list@)),
            plan_view(plan@) == before + all.take(i as int),
        decreases list.len() - i,
    {
        let command = route_allowed_ip("add", tun, list[i]);
        push_command(plan, command);
        assert(plan_view(plan@) =~= before + all.take(i + 1));
        i += 1;
    }
    assert(all.take(all.len() as int) =~= all);
}

/// The routes of the whole are those of the front and those of the rest.
proof fn lemma_route_commands_add(action: Seq<char>, tun: Seq<char>, a: Seq<CidrValue>, b: Seq<
    CidrValue,
>)
    ensures
        route_commands(action, tun, a + b) == route_commands(action, tun, a) + route_commands(
            action,
            tun,
            b,
        ),
{
    assert(route_commands(action, tun, a + b) =~= route_commands(action, tun, a) + route_commands(
        action,
        tun,
        b,
    ));
}

/// The commands that set the host up for the tunnel, in the order in which
/// they are to be run.
pub fn dev_up(conf: &Conf) -> (r: Vec<Command>)
    ensures
        plan_view(r@) == up_plan(conf.network),
{
    let network = &conf.network;
    let tun = network.tun_name();
    let fwmark = network.effective_fwmark();
    let mut plan: Vec<Command> = Vec::new();
    assert(plan_view(plan@) =~= Seq::<Seq<Seq<char>>>::empty());
    match network {
        Network::Server { client, .. } => {
            let mut i: usize = 0;
            assert(client@.take(0) =~= Seq::<ClientPeer>::empty());
            assert(plan_view(plan@) =~= route_commands(
                "add"@,
                tun@,
                client_routes(client@.take(0)),
            ));
            while i < client.len()
                invariant
                    i <= client.len(),
                    plan_view(plan@) == route_commands(
                        "add"@,
                        tun@,
                        client_routes(client@.take(i as int)),
                    ),
                decreases client.len() - i,
            {
                proof {
                    assert(client@.take(i + 1).drop_last() =~= client@.take(i as int));
                    lemma_route_commands_add(
                        "add"@,
                        tun@,
                        client_routes(client@.take(i as int)),
                        values_of(client@[i as int].allowed_ips.values@),
                    );
                }
                push_routes(&mut plan, tun.as_str(), &client[i].allowed_ips.values);
                i += 1;
            }
            assert(client@.take(client@.len() as int) =~= client@);
        },
        Network::Client { server, .. } => {
            push_routes(&mut plan, tun.as_str(), &server.allowed_ips.values);
            assert(plan_view(plan@) =~= route_commands(
                "add"@,
                tun@,
                values_of(server.allowed_ips.values@),
            ));
        },
    }
    push_rules(&mut plan, "add", "-4", fwmark);
    push_rules(&mut plan, "add", "-6", fwmark);
    match network.dns() {
        Some(dns) => {
            let mut c: Vec<String> = Vec::new();
            c.push(word("resolvectl"));
            c.push(word("dns"));
            c.push(word(tun.as_str()));
            c.push(word(dns));
            assert(words_view(c@) =~= dns_commands(conf.network)[0]);
            let ghost before = plan_view(plan@);
            push_command(&mut plan, c);
            assert(plan_view(plan@) =~= before + dns_commands(conf.network));
        },
        None => {
            assert(plan_view(plan@) + dns_commands(conf.network) =~= plan_view(plan@));
        },
    }
    plan
}

/// The commands that take the host's set-up down, in the order in which
/// they are to be run.
pub fn dev_down(conf: &Conf) -> (r: Vec<Command>)
    ensures
        plan_view(r@) == down_plan(conf.network),
{
    let fwmark = conf.network.effective_fwmark();
    let mut plan: Vec<Command> = Vec::new();
    assert(plan_view(plan@) =~= Seq::<Seq<Seq<char>>>::empty());
    push_rules(&mut plan, "delete", "-4", fwmark);
    push_rules(&mut plan, "delete", "-6", fwmark);
    let mut c: Vec<String> = Vec::new();
    c.push(word("ip"));
    c.push(word("rule"));
    c.push(word("delete"));
    c.push(word("table"));
    c.push(word("19988"));
    assert(words_view(c@) =~= seq!["ip"@, "rule"@, "delete"@, "table"@, routing_table()]);
    let ghost before = plan_view(plan@);
    push_command(&mut plan, c);
    assert(plan_view(plan@) =~= down_plan(conf.network));
    plan
}

} // verus!
