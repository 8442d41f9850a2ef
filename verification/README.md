Nucleon
=======

Nucleon is a dynamic TCP load balancer. Clients connect to it, and each of them gets a tunnel to
one of the backend servers, which are taken in turn. Servers can be added and removed while it
runs, by messages that are published on two Redis channels.

    nucleon --bind 0.0.0.0:8000 10.0.0.1:80 10.0.0.2:80

    redis:6379> PUBLISH backend_add 10.0.0.3:80
    redis:6379> PUBLISH backend_remove 10.0.0.2:80

Layout
------

`src/` is a library that decides and touches no socket. It is verified with Verus.

| module         | what it holds                                                           |
| -------------- | ----------------------------------------------------------------------- |
| `tcplb`        | the proxy: what an event or the outcome of an operation calls for       |
| `connection`   | one end of a tunnel: interest, send queue, reads and writes             |
| `events`       | sets of readiness events                                                |
| `slab`         | the table of connections, over `mio::util::Slab`                        |
| `backend`      | the servers and their rotation                                          |
| `sync`         | what a published message does to the servers                            |
| `addr`         | socket addresses                                                        |
| `simplelogger` | log levels and the form of a log line                                   |
| `options`      | the options of the program                                              |
| `text`         | comparison of texts                                                     |
| `model`        | the proxy as a state machine over mathematical values                   |
| `consistency`  | what holds in every state                                               |
| `laws`         | what the steps promise of tunnels, queues and timeouts                  |
| `relay`        | bytes are passed on as they came                                        |
| `waiting`      | the list of tokens that wait to be read                                 |
| `event_loop`   | the sockets of the event loop are those that the connections need       |
| `rotation`     | every server has its turn                                               |

`app/` is the program: it parses the arguments, owns the sockets, the timers and the Redis
subscription, carries out the operations that the proxy asks for and reports their outcome.

How the two work together
-------------------------

The event loop calls `Proxy::ready` or `Proxy::timeout`. Then it carries out what
`Proxy::take_effects` hands over and does what `Proxy::request` asks for, which is one accept,
one connect, one read or one write, and hands the outcome back, until the request is to wait for
the next event. A proxy that cannot go on asks to give up and says why.
